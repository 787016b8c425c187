use vstd::prelude::*;
use crate::db::{Database, ChangeKind, given_id, time_writable, is_dangling_author, fresh_id, now_micros,
    fill_id_and_time, lemma_given_time_writable, filled_post, filled_user, filled_metric};
use crate::errors::{TxError, ValidationError};
use crate::keys::{ws_key, ws_key_spec};
use crate::records::{Record, User, Post, Tag, Metric, Doc};
use crate::table::{Table, admits, refuses};
use crate::tx::{TxHandle, model_name, model_str, id_json, id_to_json, claimed_after, log_of, state_of, all_wf, mark_after,
    lemma_post_normalize_idempotent};
use crate::txn::{StagedKeys, str_bytes};
use crate::versions::{LogView, lemma_latest_char, strictly_sorted};
use vstd::utf8::encode_utf8;

verus! {

/// What a database snapshot sees: per model, the row count when it was
/// taken (rows below it, as far as they were committed then, are visible).
#[derive(Clone, Copy, Debug)]
pub struct DatabaseSnapshot {
    pub doc: usize,
    pub metric: usize,
    pub post: usize,
    pub tag: usize,
    pub user: usize,
    pub post_tag_link: usize,
}

impl Database {
    /// A snapshot of every model at its current row count.
    pub fn snapshot(&self) -> (s: DatabaseSnapshot)
        requires
            self.doc.wf() && self.metric.wf() && self.post.wf() && self.tag.wf() && self.user.wf(),
            self.post_tag_link.wf(),
        ensures
            s.doc == self.doc.state().log.ids.len(),
            s.metric == self.metric.state().log.ids.len(),
            s.post == self.post.state().log.ids.len(),
            s.tag == self.tag.state().log.ids.len(),
            s.user == self.user.state().log.ids.len(),
            s.post_tag_link == self.post_tag_link.rows().len(),
    {
        DatabaseSnapshot {
            doc: self.doc.row_count(),
            metric: self.metric.row_count(),
            post: self.post.row_count(),
            tag: self.tag.row_count(),
            user: self.user.row_count(),
            post_tag_link: self.post_tag_link.row_count(),
        }
    }
}

/// One write a concurrent transaction buffers: its kind, the id it is filed
/// under, and the record as it will be staged (for a delete, the record
/// the transaction saw).
#[derive(Debug)]
pub enum Write {
    Doc(ChangeKind, u128, Doc),
    Metric(ChangeKind, u128, Metric),
    Post(ChangeKind, u128, Post),
    Tag(ChangeKind, u128, Tag),
    User(ChangeKind, u128, User),
}

/// The model of a buffered write, by name order (doc, metric, post, tag,
/// user).
pub open spec fn write_model(w: Write) -> int {
    match w {
        Write::Doc(..) => 0,
        Write::Metric(..) => 1,
        Write::Post(..) => 2,
        Write::Tag(..) => 3,
        Write::User(..) => 4,
    }
}

pub open spec fn write_id(w: Write) -> u128 {
    match w {
        Write::Doc(_, id, _) => id,
        Write::Metric(_, id, _) => id,
        Write::Post(_, id, _) => id,
        Write::Tag(_, id, _) => id,
        Write::User(_, id, _) => id,
    }
}

pub open spec fn write_kind(w: Write) -> ChangeKind {
    match w {
        Write::Doc(k, _, _) => k,
        Write::Metric(k, _, _) => k,
        Write::Post(k, _, _) => k,
        Write::Tag(k, _, _) => k,
        Write::User(k, _, _) => k,
    }
}

/// The write deletes its record.
pub open spec fn write_drops(w: Write) -> bool {
    write_kind(w) is Deleted
}

impl Write {
    pub fn model(&self) -> (m: usize)
        ensures
            m == write_model(*self),
    {
        match self {
            Write::Doc(..) => 0,
            Write::Metric(..) => 1,
            Write::Post(..) => 2,
            Write::Tag(..) => 3,
            Write::User(..) => 4,
        }
    }

    pub fn id(&self) -> (id: u128)
        ensures
            id == write_id(*self),
    {
        match self {
            Write::Doc(_, id, _) => *id,
            Write::Metric(_, id, _) => *id,
            Write::Post(_, id, _) => *id,
            Write::Tag(_, id, _) => *id,
            Write::User(_, id, _) => *id,
        }
    }

    pub fn drops(&self) -> (d: bool)
        ensures
            d == write_drops(*self),
    {
        let k = match self {
            Write::Doc(k, _, _) => k,
            Write::Metric(k, _, _) => k,
            Write::Post(k, _, _) => k,
            Write::Tag(k, _, _) => k,
            Write::User(k, _, _) => k,
        };
        match k {
            ChangeKind::Deleted => true,
            _ => false,
        }
    }
}

/// Where a record a concurrent transaction sees comes from: its buffered
/// write at that position, or the committed row its snapshot reads.
#[derive(Clone, Copy, Debug, PartialEq, Eq, Structural)]
pub enum Seen {
    Buffered(usize),
    Committed(usize),
}

/// Write `i` is the last buffered write of record `id` of model `m`.
pub open spec fn last_at(b: Seq<Write>, m: int, id: u128, i: int) -> bool {
    &&& 0 <= i < b.len()
    &&& write_model(b[i]) == m
    &&& write_id(b[i]) == id
    &&& forall|j: int| i < j < b.len() ==> !(write_model(#[trigger] b[j]) == m && write_id(b[j]) == id)
}

/// What a concurrent transaction with buffered writes `b`, reading a log at
/// snapshot row count `w`, sees of record `id` of model `m`: its last
/// buffered write (nothing when that deletes it), else the version the
/// snapshot reads (nothing when that is a tombstone or there is none).
pub open spec fn seen(b: Seq<Write>, log: LogView, w: nat, m: int, id: u128) -> Option<Seen> {
    if exists|i: int| last_at(b, m, id, i) {
        let i = choose|i: int| last_at(b, m, id, i);
        if write_drops(b[i]) {
            None
        } else {
            Some(Seen::Buffered(i as usize))
        }
    } else {
        match log.row_at(w, id) {
            Some(r) => if log.deleted[r as int] {
                None
            } else {
                Some(Seen::Committed(r as usize))
            },
            None => None,
        }
    }
}

proof fn lemma_last_unique(b: Seq<Write>, m: int, id: u128, i: int, k: int)
    requires
        last_at(b, m, id, i),
        last_at(b, m, id, k),
    ensures
        i == k,
{
    if i < k {
        assert(!(write_model(b[k]) == m && write_id(b[k]) == id));
    }
    if k < i {
        assert(!(write_model(b[i]) == m && write_id(b[i]) == id));
    }
}

/// A transaction that buffers its writes and checks them against a shared
/// database: reads see the buffer over a snapshot; unique keys are checked
/// against the committed indexes and the keys the transaction claimed.
pub struct ConcurrentTxHandle {
    snap: DatabaseSnapshot,
    buffer: Vec<Write>,
    staged: StagedKeys,
}

impl ConcurrentTxHandle {
    /// The snapshot the transaction reads.
    pub closed spec fn snap(&self) -> DatabaseSnapshot {
        self.snap
    }

    /// The buffered writes, in order.
    pub closed spec fn writes(&self) -> Seq<Write> {
        self.buffer@
    }

    /// The unique keys claimed.
    pub closed spec fn claimed(&self) -> StagedKeys {
        self.staged
    }

    /// Starts a transaction reading `snap` that has written nothing.
    pub fn begin(snap: DatabaseSnapshot) -> (t: Self)
        ensures
            t.snap() == snap,
            t.writes().len() == 0,
            t.claimed().len_spec() == 0,
            forall|m: Seq<char>, f: Seq<char>, k: Seq<char>| !t.claimed().has(m, f, k),
    {
        ConcurrentTxHandle { snap, buffer: Vec::new(), staged: StagedKeys::new() }
    }

    /// The number of buffered writes.
    pub fn write_count(&self) -> (n: usize)
        ensures
            n == self.writes().len(),
    {
        self.buffer.len()
    }

    /// Buffered write `i`.
    pub fn write_at(&self, i: usize) -> (w: &Write)
        requires
            i < self.writes().len(),
        ensures
            *w == self.writes()[i as int],
    {
        &self.buffer[i]
    }

    /// The position of the last buffered write of record `id` of model `m`.
    fn last_write(&self, m: usize, id: u128) -> (r: Option<usize>)
        ensures
            match r {
                Some(i) => last_at(self.buffer@, m as int, id, i as int),
                None => !exists|i: int| last_at(self.buffer@, m as int, id, i),
            },
    {
        let mut i = self.buffer.len();
        while i > 0
            invariant
                i <= self.buffer@.len(),
                forall|j: int| i <= j < self.buffer@.len() ==> !(write_model(#[trigger] self.buffer@[j]) == m
                    && write_id(self.buffer@[j]) == id),
            decreases i,
        {
            i = i - 1;
            let x = &self.buffer[i];
            if x.model() == m && x.id() == id {
                return Some(i);
            }
        }
        proof {
            if exists|k: int| last_at(self.buffer@, m as int, id, k) {
                let k = choose|k: int| last_at(self.buffer@, m as int, id, k);
                assert(!(write_model(self.buffer@[k]) == m && write_id(self.buffer@[k]) == id));
            }
        }
        None
    }

    /// The buffered writes that survive as the records of model `m` the
    /// transaction sees, over the snapshot's live rows at `w` that it did
    /// not write: each record once, in no particular order.
    fn collect<R: Record>(&self, t: &Table<R>, w: usize, m: usize) -> (out: Vec<Seen>)
        requires
            t.wf(),
        ensures
            out@.no_duplicates(),
            forall|s: Seen| #[trigger] out@.contains(s) <==> exists|id: u128|
                seen(self.buffer@, t.state().log, w as nat, m as int, id) == Some(s),
    {
        let ghost b = self.buffer@;
        let ghost log = t.state().log;
        proof {
            t.lemma_wf();
        }
        let rows = t.live_rows_at(w);
        let mut out: Vec<Seen> = Vec::new();
        let mut i: usize = 0;
        while i < rows.len()
            invariant
                i <= rows@.len(),
                b == self.buffer@,
                log == t.state().log,
                t.wf(),
                log.indexed <= log.ids.len(),
                strictly_sorted(rows@),
                forall|x: usize| #[trigger] rows@.contains(x) <==> {
                    &&& x < log.indexed
                    &&& x < w
                    &&& log.row_at(w as nat, log.ids[x as int]) == Some(x as nat)
                    &&& !log.deleted[x as int]
                },
                out@.no_duplicates(),
                forall|p: int| 0 <= p < out@.len() ==> exists|j: int| 0 <= j < i && #[trigger] out@[p] == Seen::Committed(rows@[j]),
                forall|s: Seen| #[trigger] out@.contains(s) ==> exists|id: u128| seen(b, log, w as nat, m as int, id) == Some(s),
                forall|j: int| 0 <= j < i ==> (!exists|k: int| last_at(b, m as int, log.ids[rows@[j] as int], k))
                    ==> out@.contains(Seen::Committed(#[trigger] rows@[j])),
            decreases rows@.len() - i,
        {
            let x = rows[i];
            assert(rows@.contains(x));
            let id = t.id_at(x);
            if self.last_write(m, id).is_none() {
                proof {
                    assert(seen(b, log, w as nat, m as int, id) == Some(Seen::Committed(x)));
                    assert(!out@.contains(Seen::Committed(x))) by {
                        if out@.contains(Seen::Committed(x)) {
                            let p = choose|p: int| 0 <= p < out@.len() && out@[p] == Seen::Committed(x);
                            let j = choose|j: int| 0 <= j < i && #[trigger] out@[p] == Seen::Committed(rows@[j]);
                            assert(rows@[j] < rows@[i as int]);
                        }
                    }
                }
                let ghost before = out@;
                out.push(Seen::Committed(x));
                proof {
                    assert forall|s: Seen| #[trigger] out@.contains(s) implies exists|id: u128|
                        seen(b, log, w as nat, m as int, id) == Some(s) by {
                        if s != Seen::Committed(x) {
                            assert(before.contains(s));
                        }
                    }
                    assert forall|p: int| 0 <= p < out@.len() implies exists|j: int| 0 <= j < i + 1
                        && #[trigger] out@[p] == Seen::Committed(rows@[j]) by {
                        if p < before.len() {
                            assert(out@[p] == before[p]);
                        } else {
                            assert(out@[p] == Seen::Committed(rows@[i as int]));
                        }
                    }
                    assert forall|j: int| 0 <= j < i + 1 && (!exists|k: int| last_at(b, m as int, log.ids[rows@[j] as int], k))
                        implies out@.contains(Seen::Committed(#[trigger] rows@[j])) by {
                        if j < i {
                            assert(before.contains(Seen::Committed(rows@[j])));
                            let p = choose|p: int| 0 <= p < before.len() && before[p] == Seen::Committed(rows@[j]);
                            assert(out@[p] == before[p]);
                        } else {
                            assert(out@[before.len() as int] == Seen::Committed(rows@[j]));
                        }
                    }
                    assert(out@.no_duplicates()) by {
                        assert forall|p: int, q: int| 0 <= p < q < out@.len() implies out@[p] != out@[q] by {
                            if q == before.len() {
                                assert(before[p] == out@[p]);
                                assert(before.contains(out@[p]));
                            } else {
                                assert(before[p] == out@[p] && before[q] == out@[q]);
                            }
                        }
                    }
                }
            }
            i = i + 1;
        }
        let ghost committed = out@;
        let mut k: usize = 0;
        while k < self.buffer.len()
            invariant
                k <= b.len(),
                b == self.buffer@,
                log == t.state().log,
                t.wf(),
                log.indexed <= log.ids.len(),
                out@.no_duplicates(),
                forall|p: int| 0 <= p < out@.len() ==> (#[trigger] out@[p] is Committed) || (out@[p] matches Seen::Buffered(q) && q < k),
                forall|s: Seen| #[trigger] committed.contains(s) ==> out@.contains(s),
                forall|s: Seen| #[trigger] out@.contains(s) ==> exists|id: u128| seen(b, log, w as nat, m as int, id) == Some(s),
                forall|j: int| 0 <= j < k && write_model(b[j]) == m && !write_drops(b[j])
                    && last_at(b, m as int, write_id(b[j]), j) ==> out@.contains(Seen::Buffered(j as usize)),
            decreases b.len() - k,
        {
            let x = &self.buffer[k];
            if x.model() == m && !x.drops() {
                let id = x.id();
                match self.last_write(m, id) {
                    Some(j) => {
                        if j == k {
                            proof {
                                let c = choose|c: int| last_at(b, m as int, id, c);
                                lemma_last_unique(b, m as int, id, k as int, c);
                                assert(seen(b, log, w as nat, m as int, id) == Some(Seen::Buffered(k)));
                                assert(!out@.contains(Seen::Buffered(k))) by {
                                    if out@.contains(Seen::Buffered(k)) {
                                        let p = choose|p: int| 0 <= p < out@.len() && out@[p] == Seen::Buffered(k);
                                        assert(out@[p] is Committed || (out@[p] matches Seen::Buffered(q) && q < k));
                                    }
                                }
                            }
                            let ghost before = out@;
                            out.push(Seen::Buffered(k));
                            proof {
                                assert forall|s: Seen| #[trigger] out@.contains(s) implies exists|id: u128|
                                    seen(b, log, w as nat, m as int, id) == Some(s) by {
                                    if s != Seen::Buffered(k) {
                                        assert(before.contains(s));
                                    }
                                }
                                assert forall|s: Seen| #[trigger] committed.contains(s) implies out@.contains(s) by {
                                    assert(before.contains(s));
                                    let p = choose|p: int| 0 <= p < before.len() && before[p] == s;
                                    assert(out@[p] == s);
                                }
                                assert forall|p: int| 0 <= p < out@.len() implies (#[trigger] out@[p] is Committed)
                                    || (out@[p] matches Seen::Buffered(q) && q < k + 1) by {
                                    if p < before.len() {
                                        assert(out@[p] == before[p]);
                                    }
                                }
                                assert forall|j: int| 0 <= j < k + 1 && write_model(b[j]) == m && !write_drops(b[j])
                                    && last_at(b, m as int, write_id(b[j]), j) implies out@.contains(Seen::Buffered(j as usize)) by {
                                    if j < k {
                                        assert(before.contains(Seen::Buffered(j as usize)));
                                        let p = choose|p: int| 0 <= p < before.len() && before[p] == Seen::Buffered(j as usize);
                                        assert(out@[p] == before[p]);
                                    } else {
                                        assert(out@[before.len() as int] == Seen::Buffered(k));
                                    }
                                }
                                assert(out@.no_duplicates()) by {
                                    assert forall|p: int, q: int| 0 <= p < q < out@.len() implies out@[p] != out@[q] by {
                                        if q == before.len() {
                                            assert(before[p] == out@[p]);
                                            assert(before.contains(out@[p]));
                                        } else {
                                            assert(before[p] == out@[p] && before[q] == out@[q]);
                                        }
                                    }
                                }
                            }
                        } else {
                            proof {
                                assert(!last_at(b, m as int, id, k as int)) by {
                                    if last_at(b, m as int, id, k as int) {
                                        lemma_last_unique(b, m as int, id, k as int, j as int);
                                    }
                                }
                            }
                        }
                    },
                    None => {},
                }
            }
            k = k + 1;
        }
        proof {
            assert forall|s: Seen| (exists|id: u128| seen(b, log, w as nat, m as int, id) == Some(s))
                implies #[trigger] out@.contains(s) by {
                let id = choose|id: u128| seen(b, log, w as nat, m as int, id) == Some(s);
                if exists|c: int| last_at(b, m as int, id, c) {
                    let c = choose|c: int| last_at(b, m as int, id, c);
                    assert(s == Seen::Buffered(c as usize));
                } else {
                    let r = log.row_at(w as nat, id)->0;
                    lemma_latest_char(log.ids.take(if w < log.indexed { w as int } else { log.indexed as int }), id);
                    assert(s == Seen::Committed(r as usize));
                    assert(log.ids[r as int] == id);
                    assert(rows@.contains(r as usize));
                    let j = choose|j: int| 0 <= j < rows@.len() && rows@[j] == r as usize;
                    assert(committed.contains(Seen::Committed(rows@[j])));
                }
            }
        }
        out
    }

    fn find<R: Record>(&self, t: &Table<R>, w: usize, m: usize, id: u128) -> (s: Option<Seen>)
        requires
            t.wf(),
        ensures
            s == seen(self.buffer@, t.state().log, w as nat, m as int, id),
    {
        match self.last_write(m, id) {
            Some(i) => {
                proof {
                    let c = choose|c: int| last_at(self.buffer@, m as int, id, c);
                    lemma_last_unique(self.buffer@, m as int, id, i as int, c);
                }
                if self.buffer[i].drops() {
                    None
                } else {
                    Some(Seen::Buffered(i))
                }
            },
            None => match t.row_at(w, id) {
                Some(r) => {
                    proof {
                        let log = t.state().log;
                        lemma_latest_char(log.ids.take(if w < log.indexed { w as int } else { log.indexed as int }), id);
                        t.lemma_wf();
                    }
                    if t.is_deleted(r) {
                        None
                    } else {
                        Some(Seen::Committed(r))
                    }
                },
                None => None,
            },
        }
    }
}


/// What buffering a new record leaves and returns, `n` being the record as
/// normalised and `w` its buffered write: on success its id, its keys
/// claimed and the write buffered; else the error refusing it, and
/// nothing buffered.
pub open spec fn buffered_insert<R: Record>(t: Table<R>, before: ConcurrentTxHandle, after: ConcurrentTxHandle, n: R,
    w: Write, r: Result<u128, TxError>) -> bool {
    &&& after.snap() == before.snap()
    &&& match r {
        Ok(id) => {
            &&& id == n.spec_id()
            &&& admits(t, before.claimed(), n, None)
            &&& claimed_after(before.claimed(), after.claimed(), n, true)
            &&& after.writes() == before.writes().push(w)
        },
        Err(TxError::Validation(e)) => {
            &&& refuses(t, before.claimed(), n, None, e)
            &&& claimed_after(before.claimed(), after.claimed(), n, false)
            &&& after.writes() == before.writes()
        },
        Err(_) => false,
    }
}

/// What buffering a new version of record `id` (which the transaction
/// sees) leaves and returns, `n` being the version as normalised and `w`
/// its buffered write.
pub open spec fn buffered_update<R: Record>(t: Table<R>, before: ConcurrentTxHandle, after: ConcurrentTxHandle, id: u128,
    n: R, w: Write, r: Result<bool, TxError>) -> bool {
    &&& after.snap() == before.snap()
    &&& match r {
        Ok(true) => {
            &&& admits(t, before.claimed(), n, Some(id))
            &&& claimed_after(before.claimed(), after.claimed(), n, true)
            &&& after.writes() == before.writes().push(w)
        },
        Err(TxError::Validation(e)) => {
            &&& refuses(t, before.claimed(), n, Some(id), e)
            &&& claimed_after(before.claimed(), after.claimed(), n, false)
            &&& after.writes() == before.writes()
        },
        _ => false,
    }
}

/// A post write refused because its author is not a user the transaction
/// sees: nothing buffered or claimed.
pub open spec fn refused_dangling<T>(before: ConcurrentTxHandle, after: ConcurrentTxHandle, r: Result<T, TxError>) -> bool {
    &&& r matches Err(TxError::Validation(e)) && is_dangling_author(e)
    &&& after == before
}

/// What buffering the post `g` (its id and time filled) leaves and returns:
/// refused as dangling when, valid, it names an author the transaction does
/// not see; else as any new record.
pub open spec fn post_buffered(posts: Table<Post>, users: Table<User>, before: ConcurrentTxHandle,
    after: ConcurrentTxHandle, g: Post, r: Result<u128, TxError>) -> bool {
    let n = g.spec_normalized();
    if n.spec_valid() && seen(before.writes(), users.state().log, before.snap().user as nat, 4, n.author) is None {
        refused_dangling(before, after, r)
    } else {
        buffered_insert(posts, before, after, n, Write::Post(ChangeKind::Inserted, n.id, n), r)
    }
}

/// The ids, in order, of the buffered writes of model `m`.
pub open spec fn ids_of(b: Seq<Write>, m: int) -> Seq<u128>
    decreases b.len(),
{
    if b.len() == 0 {
        Seq::empty()
    } else if write_model(b.last()) == m {
        ids_of(b.drop_last(), m).push(write_id(b.last()))
    } else {
        ids_of(b.drop_last(), m)
    }
}

/// The index keys of a buffered write's record.
pub open spec fn write_keys(w: Write) -> Seq<Seq<char>> {
    match w {
        Write::Doc(_, _, r) => r.spec_keys(),
        Write::Metric(_, _, r) => r.spec_keys(),
        Write::Post(_, _, r) => r.spec_keys(),
        Write::Tag(_, _, r) => r.spec_keys(),
        Write::User(_, _, r) => r.spec_keys(),
    }
}

/// The ordered value of a buffered write's record.
pub open spec fn write_ord(w: Write) -> u64 {
    match w {
        Write::Doc(_, _, r) => r.spec_ord(),
        Write::Metric(_, _, r) => r.spec_ord(),
        Write::Post(_, _, r) => r.spec_ord(),
        Write::Tag(_, _, r) => r.spec_ord(),
        Write::User(_, _, r) => r.spec_ord(),
    }
}

/// The index keys, in order, of the buffered writes of model `m`.
pub open spec fn keys_of(b: Seq<Write>, m: int) -> Seq<Seq<Seq<char>>>
    decreases b.len(),
{
    if b.len() == 0 {
        Seq::empty()
    } else if write_model(b.last()) == m {
        keys_of(b.drop_last(), m).push(write_keys(b.last()))
    } else {
        keys_of(b.drop_last(), m)
    }
}

/// The ordered values, in order, of the buffered writes of model `m`.
pub open spec fn ords_of(b: Seq<Write>, m: int) -> Seq<u64>
    decreases b.len(),
{
    if b.len() == 0 {
        Seq::empty()
    } else if write_model(b.last()) == m {
        ords_of(b.drop_last(), m).push(write_ord(b.last()))
    } else {
        ords_of(b.drop_last(), m)
    }
}

/// Which of the buffered writes of model `m`, in order, delete.
pub open spec fn drops_of(b: Seq<Write>, m: int) -> Seq<bool>
    decreases b.len(),
{
    if b.len() == 0 {
        Seq::empty()
    } else if write_model(b.last()) == m {
        drops_of(b.drop_last(), m).push(write_drops(b.last()))
    } else {
        drops_of(b.drop_last(), m)
    }
}

proof fn lemma_of_len(b: Seq<Write>, m: int)
    ensures
        ids_of(b, m).len() <= b.len(),
        drops_of(b, m).len() == ids_of(b, m).len(),
    decreases b.len(),
{
    if b.len() > 0 {
        lemma_of_len(b.drop_last(), m);
    }
}

/// Model `n` once the writes `done` were staged into `now` from `start`
/// by the transaction `tx`: its rows are those of `start` and one per write,
/// and it is marked at its starting row count once written.
spec fn applied_upto(now: Database, start: Database, tx: TxHandle, done: Seq<Write>, n: int) -> bool {
    &&& log_of(&now, n).ids == log_of(&start, n).ids + ids_of(done, n)
    &&& log_of(&now, n).deleted == log_of(&start, n).deleted + drops_of(done, n)
    &&& log_of(&now, n).indexed == log_of(&start, n).indexed
    &&& state_of(&now, n).keys == state_of(&start, n).keys + keys_of(done, n)
    &&& state_of(&now, n).ords == state_of(&start, n).ords + ords_of(done, n)
    &&& tx.mark(n) == (if ids_of(done, n).len() > 0 {
            Some(log_of(&start, n).ids.len() as usize)
        } else {
            None
        })
}

proof fn lemma_apply_step(start: Database, before: Database, after: Database, t1: TxHandle, t2: TxHandle,
    done: Seq<Write>, x: Write)
    requires
        forall|n: int| 0 <= n < 5 ==> #[trigger] applied_upto(before, start, t1, done, n),
        log_of(&after, write_model(x)).ids == log_of(&before, write_model(x)).ids.push(write_id(x)),
        log_of(&after, write_model(x)).deleted == log_of(&before, write_model(x)).deleted.push(write_drops(x)),
        log_of(&after, write_model(x)).indexed == log_of(&before, write_model(x)).indexed,
        state_of(&after, write_model(x)).keys == state_of(&before, write_model(x)).keys.push(write_keys(x)),
        state_of(&after, write_model(x)).ords == state_of(&before, write_model(x)).ords.push(write_ord(x)),
        t2.mark(write_model(x)) == mark_after(t1.mark(write_model(x)), log_of(&before, write_model(x)).ids.len()),
        forall|n: int| 0 <= n < 5 && n != write_model(x) ==> #[trigger] t2.mark(n) == t1.mark(n)
            && log_of(&after, n) == log_of(&before, n) && state_of(&after, n) == state_of(&before, n),
    ensures
        forall|n: int| 0 <= n < 5 ==> #[trigger] applied_upto(after, start, t2, done.push(x), n),
{
    let d2 = done.push(x);
    assert(d2.drop_last() =~= done);
    assert forall|n: int| 0 <= n < 5 implies #[trigger] applied_upto(after, start, t2, d2, n) by {
        assert(applied_upto(before, start, t1, done, n));
        let m = write_model(x);
        if n == m {
            assert(ids_of(d2, n) == ids_of(done, n).push(write_id(x)));
            assert(drops_of(d2, n) == drops_of(done, n).push(write_drops(x)));
            assert(keys_of(d2, n) == keys_of(done, n).push(write_keys(x)));
            assert(ords_of(d2, n) == ords_of(done, n).push(write_ord(x)));
            assert(log_of(&after, n).ids =~= log_of(&start, n).ids + ids_of(d2, n));
            assert(log_of(&after, n).deleted =~= log_of(&start, n).deleted + drops_of(d2, n));
            assert(state_of(&after, n).keys =~= state_of(&start, n).keys + keys_of(d2, n));
            assert(state_of(&after, n).ords =~= state_of(&start, n).ords + ords_of(d2, n));
        } else {
            assert(ids_of(d2, n) == ids_of(done, n));
            assert(drops_of(d2, n) == drops_of(done, n));
            assert(keys_of(d2, n) == keys_of(done, n));
            assert(ords_of(d2, n) == ords_of(done, n));
            assert(t2.mark(n) == t1.mark(n));
        }
    }
}

/// The write-set key of a buffered write: `["r", model, id]`, the id in its
/// JSON form.
pub open spec fn write_key(w: Write) -> Seq<u8> {
    ws_key_spec(seq![seq![114u8], encode_utf8(model_name(write_model(w))), id_json(write_id(w))])
}

/// Transactions that write the same record present the same write-set key
/// for it, so the commit sequencer sees them conflict.
pub proof fn lemma_same_record_same_key(x: Write, y: Write)
    requires
        write_model(x) == write_model(y),
        write_id(x) == write_id(y),
    ensures
        write_key(x) == write_key(y),
{
}

/// Transactions that claim the same unique key present the same write-set
/// key for it.
pub proof fn lemma_same_claim_same_key(a: StagedKeys, b: StagedKeys, i: int, j: int)
    requires
        a.entry(i) == b.entry(j),
    ensures
        a.entry_key(i) == b.entry_key(j),
{
}

impl ConcurrentTxHandle {
    /// The write-set keys of the transaction: one `["r", model, id]` key per
    /// buffered write (the id in its JSON form), then one
    /// `["u", model, field, key]` key per claimed unique key.
    pub fn write_set(&self) -> (out: Vec<Vec<u8>>)
        ensures
            out@.len() == self.writes().len() + self.claimed().len_spec(),
            forall|i: int| 0 <= i < self.writes().len() ==> (#[trigger] out@[i])@ == write_key(self.writes()[i]),
            forall|i: int| 0 <= i < self.claimed().len_spec() ==> (#[trigger] out@[self.writes().len() + i])@
                == self.claimed().entry_key(i),
    {
        let mut out: Vec<Vec<u8>> = Vec::new();
        let mut i: usize = 0;
        while i < self.buffer.len()
            invariant
                i <= self.buffer@.len(),
                out@.len() == i,
                forall|j: int| 0 <= j < i ==> (#[trigger] out@[j])@ == ws_key_spec(seq![
                    seq![114u8], encode_utf8(model_name(write_model(self.buffer@[j]))), id_json(write_id(self.buffer@[j]))]),
            decreases self.buffer@.len() - i,
        {
            let x = &self.buffer[i];
            let model = model_str(x.model());
            let mut parts: Vec<Vec<u8>> = Vec::new();
            let mut r: Vec<u8> = Vec::new();
            r.push(114u8);
            parts.push(r);
            parts.push(str_bytes(model));
            parts.push(id_to_json(x.id()));
            let k = ws_key(&parts);
            proof {
                assert(Seq::new(parts@.len(), |j: int| parts@[j]@) =~= seq![
                    seq![114u8], encode_utf8(model_name(write_model(self.buffer@[i as int]))), id_json(write_id(self.buffer@[i as int]))]);
            }
            out.push(k);
            i = i + 1;
        }
        let u = self.staged.write_set_keys();
        let ghost base = out@;
        let mut j: usize = 0;
        while j < u.len()
            invariant
                j <= u@.len(),
                out@.len() == base.len() + j,
                forall|a: int| 0 <= a < base.len() ==> #[trigger] out@[a] == base[a],
                forall|a: int| 0 <= a < j ==> (#[trigger] out@[base.len() + a])@ == u@[a]@,
            decreases u@.len() - j,
        {
            out.push(u[j].clone());
            j = j + 1;
        }
        proof {
            assert forall|i: int| 0 <= i < self.writes().len() implies (#[trigger] out@[i])@ == write_key(self.writes()[i]) by {
                assert(out@[i] == base[i]);
            }
        }
        out
    }

    fn stage_one(&self, k: usize, tx: &mut TxHandle, db: &mut Database) -> (row: usize)
        requires
            k < self.buffer@.len(),
            old(tx).inv(&*old(db)),
            log_of(&*old(db), write_model(self.buffer@[k as int])).ids.len() < usize::MAX,
        ensures
            final(tx).inv(&*final(db)),
            final(db).post_tag_link == old(db).post_tag_link,
            ({
                let x = self.buffer@[k as int];
                let m = write_model(x);
                &&& row == log_of(&*old(db), m).ids.len()
                &&& log_of(&*final(db), m).ids == log_of(&*old(db), m).ids.push(write_id(x))
                &&& log_of(&*final(db), m).deleted == log_of(&*old(db), m).deleted.push(write_drops(x))
                &&& log_of(&*final(db), m).indexed == log_of(&*old(db), m).indexed
                &&& state_of(&*final(db), m).keys == state_of(&*old(db), m).keys.push(write_keys(x))
                &&& state_of(&*final(db), m).ords == state_of(&*old(db), m).ords.push(write_ord(x))
                &&& final(tx).mark(m) == mark_after(old(tx).mark(m), log_of(&*old(db), m).ids.len())
                &&& forall|n: int| 0 <= n < 5 && n != m ==> #[trigger] final(tx).mark(n) == old(tx).mark(n)
                    && log_of(&*final(db), n) == log_of(&*old(db), n) && state_of(&*final(db), n) == state_of(&*old(db), n)
                &&& final(tx).writes() == old(tx).writes().push((model_name(m), write_id(x)))
                &&& final(tx).claimed() == old(tx).claimed()
            }),
    {
        let x = &self.buffer[k];
        let d = x.drops();
        match x {
            Write::Doc(_, id, rec) => tx.stage_doc(db, *id, d, rec),
            Write::Metric(_, id, rec) => tx.stage_metric(db, *id, d, rec),
            Write::Post(_, id, rec) => tx.stage_post(db, *id, d, rec),
            Write::Tag(_, id, rec) => tx.stage_tag(db, *id, d, rec),
            Write::User(_, id, rec) => tx.stage_user(db, *id, d, rec),
        }
    }

    /// Stages the buffered writes, in order, into a transaction on `db` (the
    /// shared database, once the commit is granted): each model written is
    /// marked at its row count and gets one row per write, a tombstone for a
    /// delete. Returns the transaction, to journal and commit, and per write
    /// its model and row.
    #[verifier::rlimit(50)]
    #[verifier::spinoff_prover]
    pub fn apply(&self, db: &mut Database) -> (out: (TxHandle, Vec<(&'static str, usize)>))
        requires
            all_wf(&*old(db)),
            forall|m: int| 0 <= m < 5 ==> #[trigger] log_of(&*old(db), m).indexed == log_of(&*old(db), m).ids.len(),
            forall|m: int| 0 <= m < 5 ==> #[trigger] log_of(&*old(db), m).ids.len() + self.writes().len() < usize::MAX,
        ensures
            out.0.inv(&*final(db)),
            final(db).post_tag_link == old(db).post_tag_link,
            forall|m: int| 0 <= m < 5 ==> {
                &&& #[trigger] log_of(&*final(db), m).ids == log_of(&*old(db), m).ids + ids_of(self.writes(), m)
                &&& log_of(&*final(db), m).deleted == log_of(&*old(db), m).deleted + drops_of(self.writes(), m)
                &&& log_of(&*final(db), m).indexed == log_of(&*old(db), m).indexed
                &&& state_of(&*final(db), m).keys == state_of(&*old(db), m).keys + keys_of(self.writes(), m)
                &&& state_of(&*final(db), m).ords == state_of(&*old(db), m).ords + ords_of(self.writes(), m)
                &&& out.0.mark(m) == (if ids_of(self.writes(), m).len() > 0 {
                        Some(log_of(&*old(db), m).ids.len() as usize)
                    } else {
                        None
                    })
            },
            out.0.writes() == Seq::new(self.writes().len(), |k: int| (model_name(write_model(self.writes()[k])),
                write_id(self.writes()[k]))),
            out.0.claimed().len_spec() == 0,
            out.1@.len() == self.writes().len(),
            forall|k: int| 0 <= k < self.writes().len() ==> {
                let m = write_model(self.writes()[k]);
                &&& (#[trigger] out.1@[k]).0@ == model_name(m)
                &&& out.1@[k].1 == log_of(&*old(db), m).ids.len() + ids_of(self.writes().take(k), m).len()
            },
    {
        let ghost w = self.buffer@;
        let ghost d0 = *db;
        let mut tx = TxHandle::begin();
        proof {
            tx.lemma_inv_at_begin(&*db);
            assert(w.take(0) =~= Seq::<Write>::empty());
            assert forall|m: int| 0 <= m < 5 implies #[trigger] applied_upto(*db, d0, tx, w.take(0), m) by {
                assert(log_of(&*db, m).ids =~= log_of(&d0, m).ids + ids_of(w.take(0), m));
                assert(log_of(&*db, m).deleted =~= log_of(&d0, m).deleted + drops_of(w.take(0), m));
                assert(state_of(&*db, m).keys =~= state_of(&d0, m).keys + keys_of(w.take(0), m));
                assert(state_of(&*db, m).ords =~= state_of(&d0, m).ords + ords_of(w.take(0), m));
            }
        }
        let mut rows: Vec<(&'static str, usize)> = Vec::new();
        let mut k: usize = 0;
        while k < self.buffer.len()
            invariant
                k <= w.len(),
                w == self.buffer@,
                tx.inv(&*db),
                tx.claimed().len_spec() == 0,
                db.post_tag_link == d0.post_tag_link,
                forall|m: int| 0 <= m < 5 ==> #[trigger] log_of(&d0, m).ids.len() + w.len() < usize::MAX,
                forall|m: int| 0 <= m < 5 ==> #[trigger] applied_upto(*db, d0, tx, w.take(k as int), m),
                tx.writes() == Seq::new(k as nat, |j: int| (model_name(write_model(w[j])), write_id(w[j]))),
                rows@.len() == k,
                forall|j: int| 0 <= j < k ==> {
                    let m = write_model(w[j]);
                    &&& (#[trigger] rows@[j]).0@ == model_name(m)
                    &&& rows@[j].1 == log_of(&d0, m).ids.len() + ids_of(w.take(j), m).len()
                },
            decreases w.len() - k,
        {
            let ghost m = write_model(w[k as int]);
            let ghost d1 = *db;
            let ghost t1 = tx;
            proof {
                lemma_of_len(w.take(k as int), m);
                assert(applied_upto(d1, d0, t1, w.take(k as int), m));
                assert(log_of(&d0, m).ids.len() + w.len() < usize::MAX);
                assert forall|n: int| 0 <= n < 5 implies #[trigger] applied_upto(d1, d0, t1, w.take(k as int), n) by {}
            }
            let row = self.stage_one(k, &mut tx, db);
            let name = model_str(self.buffer[k].model());
            rows.push((name, row));
            proof {
                let t0 = w.take(k as int);
                let t2 = w.take(k + 1);
                assert(t2 =~= t0.push(w[k as int]));
                assert forall|n: int| 0 <= n < 5 && n != m implies #[trigger] tx.mark(n) == t1.mark(n)
                    && log_of(&*db, n) == log_of(&d1, n) && state_of(&*db, n) == state_of(&d1, n) by {}
                lemma_apply_step(d0, d1, *db, t1, tx, t0, w[k as int]);
                assert(tx.writes() =~= Seq::new((k + 1) as nat, |j: int| (model_name(write_model(w[j])), write_id(w[j]))));
                assert forall|j: int| 0 <= j < k + 1 implies {
                    let mm = write_model(w[j]);
                    &&& (#[trigger] rows@[j]).0@ == model_name(mm)
                    &&& rows@[j].1 == log_of(&d0, mm).ids.len() + ids_of(w.take(j), mm).len()
                } by {
                    if j == k {
                        assert(w.take(j) == t0);
                    }
                }
            }
            k = k + 1;
        }
        proof {
            assert(w.take(w.len() as int) =~= w);
            assert(w == self.writes());
            assert forall|m: int| 0 <= m < 5 implies {
                &&& #[trigger] log_of(&*db, m).ids == log_of(&d0, m).ids + ids_of(w, m)
                &&& log_of(&*db, m).deleted == log_of(&d0, m).deleted + drops_of(w, m)
                &&& log_of(&*db, m).indexed == log_of(&d0, m).indexed
                &&& state_of(&*db, m).keys == state_of(&d0, m).keys + keys_of(w, m)
                &&& state_of(&*db, m).ords == state_of(&d0, m).ords + ords_of(w, m)
                &&& tx.mark(m) == (if ids_of(w, m).len() > 0 {
                        Some(log_of(&d0, m).ids.len() as usize)
                    } else {
                        None
                    })
            } by {
                assert(applied_upto(*db, d0, tx, w.take(k as int), m));
            }
            assert forall|m: int| 0 <= m < 5 implies {
                &&& #[trigger] state_of(&*db, m).keys == state_of(&d0, m).keys + keys_of(w, m)
                &&& state_of(&*db, m).ords == state_of(&d0, m).ords + ords_of(w, m)
            } by {
                assert(applied_upto(*db, d0, tx, w.take(k as int), m));
            }
        }
        (tx, rows)
    }
}

/// A buffered transaction reads its own writes: after buffering a write of
/// record `id` it sees that write (nothing, when it deletes the record),
/// whatever the snapshot holds.
pub proof fn lemma_reads_own_write(b: Seq<Write>, x: Write, log: LogView, w: nat)
    ensures
        seen(b.push(x), log, w, write_model(x), write_id(x)) == (if write_drops(x) {
            None
        } else {
            Some(Seen::Buffered(b.len() as usize))
        }),
{
    let c = b.push(x);
    assert(last_at(c, write_model(x), write_id(x), b.len() as int));
    let k = choose|k: int| last_at(c, write_model(x), write_id(x), k);
    lemma_last_unique(c, write_model(x), write_id(x), b.len() as int, k);
}

/// Buffering a write of one record leaves what the transaction sees of
/// every other record unchanged.
pub proof fn lemma_other_reads_unchanged(b: Seq<Write>, x: Write, log: LogView, w: nat, m: int, id: u128)
    requires
        !(write_model(x) == m && write_id(x) == id),
    ensures
        seen(b.push(x), log, w, m, id) == seen(b, log, w, m, id),
{
    let c = b.push(x);
    assert forall|i: int| #[trigger] last_at(c, m, id, i) <==> last_at(b, m, id, i) by {
        if last_at(b, m, id, i) {
            assert forall|j: int| i < j < c.len() implies !(write_model(#[trigger] c[j]) == m && write_id(c[j]) == id) by {
                if j < b.len() {
                    assert(c[j] == b[j]);
                }
            }
        }
        if last_at(c, m, id, i) {
            assert(i < b.len());
            assert forall|j: int| i < j < b.len() implies !(write_model(#[trigger] b[j]) == m && write_id(b[j]) == id) by {
                assert(c[j] == b[j]);
            }
        }
    }
    if exists|i: int| last_at(b, m, id, i) {
        let i = choose|i: int| last_at(b, m, id, i);
        assert(last_at(c, m, id, i));
        let k = choose|k: int| last_at(c, m, id, k);
        assert(last_at(b, m, id, k));
        lemma_last_unique(b, m, id, i, k);
        assert(c[i] == b[i]);
    } else {
        assert(!exists|k: int| last_at(c, m, id, k)) by {
            if exists|k: int| last_at(c, m, id, k) {
                let k = choose|k: int| last_at(c, m, id, k);
                assert(last_at(b, m, id, k));
            }
        }
    }
}

/// Snapshot isolation: rows committed after a snapshot was taken (past its
/// row count `w`) do not change what a transaction reading it sees.
pub proof fn lemma_seen_ignores_later_rows(b: Seq<Write>, log1: LogView, log2: LogView, w: nat, m: int, id: u128)
    requires
        w <= log1.indexed,
        w <= log2.indexed,
        log1.indexed <= log1.ids.len(),
        log2.indexed <= log2.ids.len(),
        log1.ids.len() == log1.deleted.len(),
        log2.ids.len() == log2.deleted.len(),
        log1.ids.take(w as int) == log2.ids.take(w as int),
        log1.deleted.take(w as int) == log2.deleted.take(w as int),
    ensures
        seen(b, log1, w, m, id) == seen(b, log2, w, m, id),
{
    assert(log1.row_at(w, id) == log2.row_at(w, id));
    lemma_latest_char(log1.ids.take(w as int), id);
    if let Some(r) = log1.row_at(w, id) {
        assert(log1.deleted.take(w as int)[r as int] == log1.deleted[r as int]);
        assert(log2.deleted.take(w as int)[r as int] == log2.deleted[r as int]);
    }
}

impl ConcurrentTxHandle {
    /// The doc record `id` as the transaction sees it: its last buffered
    /// write (none when that deletes it), else the version its snapshot reads.
    pub fn get_doc(&self, db: &Database, id: u128) -> (s: Option<Seen>)
        requires
            db.doc.wf(),
        ensures
            s == seen(self.writes(), db.doc.state().log, self.snap().doc as nat, 0, id),
    {
        self.find(&db.doc, self.snap.doc, 0, id)
    }

    /// Every doc record the transaction sees, each once, in no particular
    /// order.
    pub fn all_doc(&self, db: &Database) -> (out: Vec<Seen>)
        requires
            db.doc.wf(),
        ensures
            out@.no_duplicates(),
            forall|s: Seen| #[trigger] out@.contains(s) <==> exists|id: u128|
                seen(self.writes(), db.doc.state().log, self.snap().doc as nat, 0, id) == Some(s),
    {
        self.collect(&db.doc, self.snap.doc, 0)
    }

    /// Buffers the deletion of doc record `id` when the transaction sees
    /// it (else `false`, and nothing changes); the tombstone carries
    /// `record`, the record it sees for `id`.
    pub fn delete_doc(&mut self, db: &Database, id: u128, record: Doc) -> (done: bool)
        requires
            db.doc.wf(),
        ensures
            done == seen(old(self).writes(), db.doc.state().log, old(self).snap().doc as nat, 0, id) is Some,
            final(self).snap() == old(self).snap(),
            final(self).claimed() == old(self).claimed(),
            final(self).writes() == (if done {
                old(self).writes().push(Write::Doc(ChangeKind::Deleted, id, record))
            } else {
                old(self).writes()
            }),
    {
        if self.find(&db.doc, self.snap.doc, 0, id).is_none() {
            return false;
        }
        self.buffer.push(Write::Doc(ChangeKind::Deleted, id, record));
        true
    }

    /// Buffers a new doc record whose id (when unset) is `fresh`: it is normalised, checked, its unique keys claimed
    /// (against the committed indexes and the keys the transaction claimed),
    /// and the write buffered; returns its id.
    pub fn create_doc_with(&mut self, db: &Database, rec: Doc, fresh: u128) -> (r: Result<u128, TxError>)
        requires
            db.doc.wf(),
        ensures
            buffered_insert(db.doc, *old(self), *final(self), (Doc { id: given_id(rec.id, fresh), ..rec }).spec_normalized(), Write::Doc(ChangeKind::Inserted, (Doc { id: given_id(rec.id, fresh), ..rec }).spec_normalized().id, (Doc { id: given_id(rec.id, fresh), ..rec }).spec_normalized()), r),
    {
        let id = if rec.id == 0 { fresh } else { rec.id };
        let rec = Doc { id, ..rec };
        match db.doc.tx_check(rec, None, &mut self.staged) {
            Ok(n) => {
                let id = n.id;
                self.buffer.push(Write::Doc(ChangeKind::Inserted, id, n));
                Ok(id)
            },
            Err(e) => Err(TxError::Validation(e)),
        }
    }

    /// Buffers a new doc record: a nil id gets a fresh random one.
    pub fn create_doc(&mut self, db: &Database, rec: Doc) -> (r: Result<u128, TxError>)
        requires
            db.doc.wf(),
        ensures
            exists|fresh: u128| (rec.id == 0 ==> fresh != 0) && buffered_insert(db.doc, *old(self), *final(self), (Doc { id: given_id(rec.id, fresh), ..rec }).spec_normalized(), Write::Doc(ChangeKind::Inserted, (Doc { id: given_id(rec.id, fresh), ..rec }).spec_normalized().id, (Doc { id: given_id(rec.id, fresh), ..rec }).spec_normalized()), r),
    {
        let fresh = if rec.id == 0 { fresh_id() } else { 0 };
        self.create_doc_with(db, rec, fresh)
    }

    /// Buffers a new version of doc record `id` when the transaction sees
    /// it (else `Ok(false)`, and nothing changes): it is normalised, checked, its unique keys claimed (its own excepted),
    /// and the write buffered.
    pub fn update_doc(&mut self, db: &Database, id: u128, rec: Doc) -> (r: Result<bool, TxError>)
        requires
            db.doc.wf(),
        ensures
            final(self).snap() == old(self).snap(),
            seen(old(self).writes(), db.doc.state().log, old(self).snap().doc as nat, 0, id) is None ==> r == Ok::<bool, TxError>(false) && *final(self) == *old(self),
            seen(old(self).writes(), db.doc.state().log, old(self).snap().doc as nat, 0, id) is Some ==> buffered_update(db.doc, *old(self), *final(self), id, rec.spec_normalized(), Write::Doc(ChangeKind::Updated, id, rec.spec_normalized()), r),
    {
        if self.find(&db.doc, self.snap.doc, 0, id).is_none() {
            return Ok(false);
        }
        match db.doc.tx_check(rec, Some(id), &mut self.staged) {
            Ok(n) => {
                self.buffer.push(Write::Doc(ChangeKind::Updated, id, n));
                Ok(true)
            },
            Err(e) => Err(TxError::Validation(e)),
        }
    }

    /// The metric record `id` as the transaction sees it: its last buffered
    /// write (none when that deletes it), else the version its snapshot reads.
    pub fn get_metric(&self, db: &Database, id: u128) -> (s: Option<Seen>)
        requires
            db.metric.wf(),
        ensures
            s == seen(self.writes(), db.metric.state().log, self.snap().metric as nat, 1, id),
    {
        self.find(&db.metric, self.snap.metric, 1, id)
    }

    /// Every metric record the transaction sees, each once, in no particular
    /// order.
    pub fn all_metric(&self, db: &Database) -> (out: Vec<Seen>)
        requires
            db.metric.wf(),
        ensures
            out@.no_duplicates(),
            forall|s: Seen| #[trigger] out@.contains(s) <==> exists|id: u128|
                seen(self.writes(), db.metric.state().log, self.snap().metric as nat, 1, id) == Some(s),
    {
        self.collect(&db.metric, self.snap.metric, 1)
    }

    /// Buffers the deletion of metric record `id` when the transaction sees
    /// it (else `false`, and nothing changes); the tombstone carries
    /// `record`, the record it sees for `id`.
    pub fn delete_metric(&mut self, db: &Database, id: u128, record: Metric) -> (done: bool)
        requires
            db.metric.wf(),
        ensures
            done == seen(old(self).writes(), db.metric.state().log, old(self).snap().metric as nat, 1, id) is Some,
            final(self).snap() == old(self).snap(),
            final(self).claimed() == old(self).claimed(),
            final(self).writes() == (if done {
                old(self).writes().push(Write::Metric(ChangeKind::Deleted, id, record))
            } else {
                old(self).writes()
            }),
    {
        if self.find(&db.metric, self.snap.metric, 1, id).is_none() {
            return false;
        }
        self.buffer.push(Write::Metric(ChangeKind::Deleted, id, record));
        true
    }

    /// Buffers a new metric record whose id (when unset) is `fresh` and recording time (when unset) `now`: it is normalised, checked, its unique keys claimed
    /// (against the committed indexes and the keys the transaction claimed),
    /// and the write buffered; returns its id.
    pub fn create_metric_with(&mut self, db: &Database, rec: Metric, fresh: u128, now: i64) -> (r: Result<u128, TxError>)
        requires
            db.metric.wf(),
            now >= 0,
            time_writable(rec.recorded_at),
        ensures
            buffered_insert(db.metric, *old(self), *final(self), (filled_metric(rec, fresh, now)).spec_normalized(), Write::Metric(ChangeKind::Inserted, (filled_metric(rec, fresh, now)).spec_normalized().id, (filled_metric(rec, fresh, now)).spec_normalized()), r),
    {
        let (id, t) = fill_id_and_time(rec.id, rec.recorded_at, fresh, now);
        proof {
            lemma_given_time_writable(rec.recorded_at, now);
        }
        let rec = Metric { id, recorded_at: t, ..rec };
        match db.metric.tx_check(rec, None, &mut self.staged) {
            Ok(n) => {
                let id = n.id;
                self.buffer.push(Write::Metric(ChangeKind::Inserted, id, n));
                Ok(id)
            },
            Err(e) => Err(TxError::Validation(e)),
        }
    }

    /// Buffers a new metric record: a nil id gets a fresh random one and an unset time the current time.
    pub fn create_metric(&mut self, db: &Database, rec: Metric) -> (r: Result<u128, TxError>)
        requires
            db.metric.wf(),
            time_writable(rec.recorded_at),
        ensures
            exists|fresh: u128, now: i64| #![trigger filled_metric(rec, fresh, now)] (rec.id == 0 ==> fresh != 0) && now >= 0
                && buffered_insert(db.metric, *old(self), *final(self), (filled_metric(rec, fresh, now)).spec_normalized(), Write::Metric(ChangeKind::Inserted, (filled_metric(rec, fresh, now)).spec_normalized().id, (filled_metric(rec, fresh, now)).spec_normalized()), r),
    {
        let fresh = if rec.id == 0 { fresh_id() } else { 0 };
        let now = if rec.recorded_at == 0 { now_micros() } else { 0 };
        self.create_metric_with(db, rec, fresh, now)
    }

    /// Buffers a new version of metric record `id` when the transaction sees
    /// it (else `Ok(false)`, and nothing changes): it is normalised, checked, its unique keys claimed (its own excepted),
    /// and the write buffered.
    pub fn update_metric(&mut self, db: &Database, id: u128, rec: Metric) -> (r: Result<bool, TxError>)
        requires
            db.metric.wf(),
            time_writable(rec.recorded_at),
        ensures
            final(self).snap() == old(self).snap(),
            seen(old(self).writes(), db.metric.state().log, old(self).snap().metric as nat, 1, id) is None ==> r == Ok::<bool, TxError>(false) && *final(self) == *old(self),
            seen(old(self).writes(), db.metric.state().log, old(self).snap().metric as nat, 1, id) is Some ==> buffered_update(db.metric, *old(self), *final(self), id, rec.spec_normalized(), Write::Metric(ChangeKind::Updated, id, rec.spec_normalized()), r),
    {
        if self.find(&db.metric, self.snap.metric, 1, id).is_none() {
            return Ok(false);
        }
        match db.metric.tx_check(rec, Some(id), &mut self.staged) {
            Ok(n) => {
                self.buffer.push(Write::Metric(ChangeKind::Updated, id, n));
                Ok(true)
            },
            Err(e) => Err(TxError::Validation(e)),
        }
    }

    /// The post record `id` as the transaction sees it: its last buffered
    /// write (none when that deletes it), else the version its snapshot reads.
    pub fn get_post(&self, db: &Database, id: u128) -> (s: Option<Seen>)
        requires
            db.post.wf(),
        ensures
            s == seen(self.writes(), db.post.state().log, self.snap().post as nat, 2, id),
    {
        self.find(&db.post, self.snap.post, 2, id)
    }

    /// Every post record the transaction sees, each once, in no particular
    /// order.
    pub fn all_post(&self, db: &Database) -> (out: Vec<Seen>)
        requires
            db.post.wf(),
        ensures
            out@.no_duplicates(),
            forall|s: Seen| #[trigger] out@.contains(s) <==> exists|id: u128|
                seen(self.writes(), db.post.state().log, self.snap().post as nat, 2, id) == Some(s),
    {
        self.collect(&db.post, self.snap.post, 2)
    }

    /// Buffers the deletion of post record `id` when the transaction sees
    /// it (else `false`, and nothing changes); the tombstone carries
    /// `record`, the record it sees for `id`.
    pub fn delete_post(&mut self, db: &Database, id: u128, record: Post) -> (done: bool)
        requires
            db.post.wf(),
        ensures
            done == seen(old(self).writes(), db.post.state().log, old(self).snap().post as nat, 2, id) is Some,
            final(self).snap() == old(self).snap(),
            final(self).claimed() == old(self).claimed(),
            final(self).writes() == (if done {
                old(self).writes().push(Write::Post(ChangeKind::Deleted, id, record))
            } else {
                old(self).writes()
            }),
    {
        if self.find(&db.post, self.snap.post, 2, id).is_none() {
            return false;
        }
        self.buffer.push(Write::Post(ChangeKind::Deleted, id, record));
        true
    }

    /// Buffers a new post record whose id (when unset) is `fresh` and creation time (when unset) `now`: it is normalised, checked (its author must be a user the transaction sees), its unique keys claimed
    /// (against the committed indexes and the keys the transaction claimed),
    /// and the write buffered; returns its id.
    pub fn create_post_with(&mut self, db: &Database, rec: Post, fresh: u128, now: i64) -> (r: Result<u128, TxError>)
        requires
            db.post.wf(),
            db.user.wf(),
            now >= 0,
            time_writable(rec.created_at),
        ensures
            post_buffered(db.post, db.user, *old(self), *final(self), filled_post(rec, fresh, now), r),
    {
        let (id, t) = fill_id_and_time(rec.id, rec.created_at, fresh, now);
        proof {
            lemma_given_time_writable(rec.created_at, now);
        }
        let rec = Post { id, created_at: t, ..rec };
        let ghost g = rec;
        let n = rec.normalize();
        match n.check() {
            Err(e) => return Err(TxError::Validation(e)),
            Ok(()) => {},
        }
        if self.find(&db.user, self.snap.user, 4, n.author).is_none() {
            return Err(TxError::Validation(ValidationError::DanglingReference { model: "Post", field: "author", target: "User" }));
        }
        proof {
            lemma_post_normalize_idempotent(g);
        }
        match db.post.tx_check(n, None, &mut self.staged) {
            Ok(x) => {
                let id = x.id;
                self.buffer.push(Write::Post(ChangeKind::Inserted, id, x));
                Ok(id)
            },
            Err(e) => Err(TxError::Validation(e)),
        }
    }

    /// Buffers a new post record: a nil id gets a fresh random one and an unset time the current time.
    pub fn create_post(&mut self, db: &Database, rec: Post) -> (r: Result<u128, TxError>)
        requires
            db.post.wf(),
            db.user.wf(),
            time_writable(rec.created_at),
        ensures
            exists|fresh: u128, now: i64| #![trigger filled_post(rec, fresh, now)] (rec.id == 0 ==> fresh != 0) && now >= 0
                && post_buffered(db.post, db.user, *old(self), *final(self), filled_post(rec, fresh, now), r),
    {
        let fresh = if rec.id == 0 { fresh_id() } else { 0 };
        let now = if rec.created_at == 0 { now_micros() } else { 0 };
        self.create_post_with(db, rec, fresh, now)
    }

    /// Buffers a new version of post record `id` when the transaction sees
    /// it (else `Ok(false)`, and nothing changes): it is normalised, checked (its author must be a user the transaction sees), its unique keys claimed (its own excepted),
    /// and the write buffered.
    pub fn update_post(&mut self, db: &Database, id: u128, rec: Post) -> (r: Result<bool, TxError>)
        requires
            db.post.wf(),
            db.user.wf(),
            time_writable(rec.created_at),
        ensures
            final(self).snap() == old(self).snap(),
            seen(old(self).writes(), db.post.state().log, old(self).snap().post as nat, 2, id) is None ==> r == Ok::<bool, TxError>(false) && *final(self) == *old(self),
            seen(old(self).writes(), db.post.state().log, old(self).snap().post as nat, 2, id) is Some ==> if rec.spec_normalized().spec_valid() && seen(old(self).writes(), db.user.state().log, old(self).snap().user as nat, 4,
                rec.spec_normalized().author) is None {
                refused_dangling(*old(self), *final(self), r)
            } else {
                buffered_update(db.post, *old(self), *final(self), id, rec.spec_normalized(), Write::Post(ChangeKind::Updated, id, rec.spec_normalized()), r)
            },
    {
        if self.find(&db.post, self.snap.post, 2, id).is_none() {
            return Ok(false);
        }
        let ghost g = rec;
        let n = rec.normalize();
        match n.check() {
            Err(e) => return Err(TxError::Validation(e)),
            Ok(()) => {},
        }
        if self.find(&db.user, self.snap.user, 4, n.author).is_none() {
            return Err(TxError::Validation(ValidationError::DanglingReference { model: "Post", field: "author", target: "User" }));
        }
        proof {
            lemma_post_normalize_idempotent(g);
        }
        match db.post.tx_check(n, Some(id), &mut self.staged) {
            Ok(x) => {
                self.buffer.push(Write::Post(ChangeKind::Updated, id, x));
                Ok(true)
            },
            Err(e) => Err(TxError::Validation(e)),
        }
    }

    /// The tag record `id` as the transaction sees it: its last buffered
    /// write (none when that deletes it), else the version its snapshot reads.
    pub fn get_tag(&self, db: &Database, id: u128) -> (s: Option<Seen>)
        requires
            db.tag.wf(),
        ensures
            s == seen(self.writes(), db.tag.state().log, self.snap().tag as nat, 3, id),
    {
        self.find(&db.tag, self.snap.tag, 3, id)
    }

    /// Every tag record the transaction sees, each once, in no particular
    /// order.
    pub fn all_tag(&self, db: &Database) -> (out: Vec<Seen>)
        requires
            db.tag.wf(),
        ensures
            out@.no_duplicates(),
            forall|s: Seen| #[trigger] out@.contains(s) <==> exists|id: u128|
                seen(self.writes(), db.tag.state().log, self.snap().tag as nat, 3, id) == Some(s),
    {
        self.collect(&db.tag, self.snap.tag, 3)
    }

    /// Buffers the deletion of tag record `id` when the transaction sees
    /// it (else `false`, and nothing changes); the tombstone carries
    /// `record`, the record it sees for `id`.
    pub fn delete_tag(&mut self, db: &Database, id: u128, record: Tag) -> (done: bool)
        requires
            db.tag.wf(),
        ensures
            done == seen(old(self).writes(), db.tag.state().log, old(self).snap().tag as nat, 3, id) is Some,
            final(self).snap() == old(self).snap(),
            final(self).claimed() == old(self).claimed(),
            final(self).writes() == (if done {
                old(self).writes().push(Write::Tag(ChangeKind::Deleted, id, record))
            } else {
                old(self).writes()
            }),
    {
        if self.find(&db.tag, self.snap.tag, 3, id).is_none() {
            return false;
        }
        self.buffer.push(Write::Tag(ChangeKind::Deleted, id, record));
        true
    }

    /// Buffers a new tag record whose id (when unset) is `fresh`: it is normalised, checked, its unique keys claimed
    /// (against the committed indexes and the keys the transaction claimed),
    /// and the write buffered; returns its id.
    pub fn create_tag_with(&mut self, db: &Database, rec: Tag, fresh: u128) -> (r: Result<u128, TxError>)
        requires
            db.tag.wf(),
        ensures
            buffered_insert(db.tag, *old(self), *final(self), (Tag { id: given_id(rec.id, fresh), ..rec }).spec_normalized(), Write::Tag(ChangeKind::Inserted, (Tag { id: given_id(rec.id, fresh), ..rec }).spec_normalized().id, (Tag { id: given_id(rec.id, fresh), ..rec }).spec_normalized()), r),
    {
        let id = if rec.id == 0 { fresh } else { rec.id };
        let rec = Tag { id, ..rec };
        match db.tag.tx_check(rec, None, &mut self.staged) {
            Ok(n) => {
                let id = n.id;
                self.buffer.push(Write::Tag(ChangeKind::Inserted, id, n));
                Ok(id)
            },
            Err(e) => Err(TxError::Validation(e)),
        }
    }

    /// Buffers a new tag record: a nil id gets a fresh random one.
    pub fn create_tag(&mut self, db: &Database, rec: Tag) -> (r: Result<u128, TxError>)
        requires
            db.tag.wf(),
        ensures
            exists|fresh: u128| (rec.id == 0 ==> fresh != 0) && buffered_insert(db.tag, *old(self), *final(self), (Tag { id: given_id(rec.id, fresh), ..rec }).spec_normalized(), Write::Tag(ChangeKind::Inserted, (Tag { id: given_id(rec.id, fresh), ..rec }).spec_normalized().id, (Tag { id: given_id(rec.id, fresh), ..rec }).spec_normalized()), r),
    {
        let fresh = if rec.id == 0 { fresh_id() } else { 0 };
        self.create_tag_with(db, rec, fresh)
    }

    /// Buffers a new version of tag record `id` when the transaction sees
    /// it (else `Ok(false)`, and nothing changes): it is normalised, checked, its unique keys claimed (its own excepted),
    /// and the write buffered.
    pub fn update_tag(&mut self, db: &Database, id: u128, rec: Tag) -> (r: Result<bool, TxError>)
        requires
            db.tag.wf(),
        ensures
            final(self).snap() == old(self).snap(),
            seen(old(self).writes(), db.tag.state().log, old(self).snap().tag as nat, 3, id) is None ==> r == Ok::<bool, TxError>(false) && *final(self) == *old(self),
            seen(old(self).writes(), db.tag.state().log, old(self).snap().tag as nat, 3, id) is Some ==> buffered_update(db.tag, *old(self), *final(self), id, rec.spec_normalized(), Write::Tag(ChangeKind::Updated, id, rec.spec_normalized()), r),
    {
        if self.find(&db.tag, self.snap.tag, 3, id).is_none() {
            return Ok(false);
        }
        match db.tag.tx_check(rec, Some(id), &mut self.staged) {
            Ok(n) => {
                self.buffer.push(Write::Tag(ChangeKind::Updated, id, n));
                Ok(true)
            },
            Err(e) => Err(TxError::Validation(e)),
        }
    }

    /// The user record `id` as the transaction sees it: its last buffered
    /// write (none when that deletes it), else the version its snapshot reads.
    pub fn get_user(&self, db: &Database, id: u128) -> (s: Option<Seen>)
        requires
            db.user.wf(),
        ensures
            s == seen(self.writes(), db.user.state().log, self.snap().user as nat, 4, id),
    {
        self.find(&db.user, self.snap.user, 4, id)
    }

    /// Every user record the transaction sees, each once, in no particular
    /// order.
    pub fn all_user(&self, db: &Database) -> (out: Vec<Seen>)
        requires
            db.user.wf(),
        ensures
            out@.no_duplicates(),
            forall|s: Seen| #[trigger] out@.contains(s) <==> exists|id: u128|
                seen(self.writes(), db.user.state().log, self.snap().user as nat, 4, id) == Some(s),
    {
        self.collect(&db.user, self.snap.user, 4)
    }

    /// Buffers the deletion of user record `id` when the transaction sees
    /// it (else `false`, and nothing changes); the tombstone carries
    /// `record`, the record it sees for `id`.
    pub fn delete_user(&mut self, db: &Database, id: u128, record: User) -> (done: bool)
        requires
            db.user.wf(),
        ensures
            done == seen(old(self).writes(), db.user.state().log, old(self).snap().user as nat, 4, id) is Some,
            final(self).snap() == old(self).snap(),
            final(self).claimed() == old(self).claimed(),
            final(self).writes() == (if done {
                old(self).writes().push(Write::User(ChangeKind::Deleted, id, record))
            } else {
                old(self).writes()
            }),
    {
        if self.find(&db.user, self.snap.user, 4, id).is_none() {
            return false;
        }
        self.buffer.push(Write::User(ChangeKind::Deleted, id, record));
        true
    }

    /// Buffers a new user record whose id (when unset) is `fresh` and creation time (when unset) `now`: it is normalised, checked, its unique keys claimed
    /// (against the committed indexes and the keys the transaction claimed),
    /// and the write buffered; returns its id.
    pub fn create_user_with(&mut self, db: &Database, rec: User, fresh: u128, now: i64) -> (r: Result<u128, TxError>)
        requires
            db.user.wf(),
            now >= 0,
            time_writable(rec.created_at),
        ensures
            buffered_insert(db.user, *old(self), *final(self), (filled_user(rec, fresh, now)).spec_normalized(), Write::User(ChangeKind::Inserted, (filled_user(rec, fresh, now)).spec_normalized().id, (filled_user(rec, fresh, now)).spec_normalized()), r),
    {
        let (id, t) = fill_id_and_time(rec.id, rec.created_at, fresh, now);
        proof {
            lemma_given_time_writable(rec.created_at, now);
        }
        let rec = User { id, created_at: t, ..rec };
        match db.user.tx_check(rec, None, &mut self.staged) {
            Ok(n) => {
                let id = n.id;
                self.buffer.push(Write::User(ChangeKind::Inserted, id, n));
                Ok(id)
            },
            Err(e) => Err(TxError::Validation(e)),
        }
    }

    /// Buffers a new user record: a nil id gets a fresh random one and an unset time the current time.
    pub fn create_user(&mut self, db: &Database, rec: User) -> (r: Result<u128, TxError>)
        requires
            db.user.wf(),
            time_writable(rec.created_at),
        ensures
            exists|fresh: u128, now: i64| #![trigger filled_user(rec, fresh, now)] (rec.id == 0 ==> fresh != 0) && now >= 0
                && buffered_insert(db.user, *old(self), *final(self), (filled_user(rec, fresh, now)).spec_normalized(), Write::User(ChangeKind::Inserted, (filled_user(rec, fresh, now)).spec_normalized().id, (filled_user(rec, fresh, now)).spec_normalized()), r),
    {
        let fresh = if rec.id == 0 { fresh_id() } else { 0 };
        let now = if rec.created_at == 0 { now_micros() } else { 0 };
        self.create_user_with(db, rec, fresh, now)
    }

    /// Buffers a new version of user record `id` when the transaction sees
    /// it (else `Ok(false)`, and nothing changes): it is normalised, checked, its unique keys claimed (its own excepted),
    /// and the write buffered.
    pub fn update_user(&mut self, db: &Database, id: u128, rec: User) -> (r: Result<bool, TxError>)
        requires
            db.user.wf(),
            time_writable(rec.created_at),
        ensures
            final(self).snap() == old(self).snap(),
            seen(old(self).writes(), db.user.state().log, old(self).snap().user as nat, 4, id) is None ==> r == Ok::<bool, TxError>(false) && *final(self) == *old(self),
            seen(old(self).writes(), db.user.state().log, old(self).snap().user as nat, 4, id) is Some ==> buffered_update(db.user, *old(self), *final(self), id, rec.spec_normalized(), Write::User(ChangeKind::Updated, id, rec.spec_normalized()), r),
    {
        if self.find(&db.user, self.snap.user, 4, id).is_none() {
            return Ok(false);
        }
        match db.user.tx_check(rec, Some(id), &mut self.staged) {
            Ok(n) => {
                self.buffer.push(Write::User(ChangeKind::Updated, id, n));
                Ok(true)
            },
            Err(e) => Err(TxError::Validation(e)),
        }
    }
}

} // verus!
