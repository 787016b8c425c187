use vstd::prelude::*;
use crate::keys::{str_key, u64_key, id_key, str_key_spec, u64_key_spec, id_key_spec};
use crate::model::{range_scan, appended, lemma_appended};
use crate::ordered::{in_range, sorted_by_pair, sorted_by_pair_desc, pair_lt, pair_desc_lt};
use crate::versions::LogView;
use crate::records::{Record, User, Post, Tag, Metric};
use crate::table::{Table, unique_holds};
use crate::versions::{is_live_row_list, strictly_sorted};

verus! {

/// `out` are the rows of a lookup of `key` in hash index `f`: each is the
/// live row of a record the index holds under `key`, once, and every live
/// record it holds under `key` has its row there.
pub open spec fn found<R: Record>(t: Table<R>, f: int, key: Seq<char>, out: Seq<usize>) -> bool {
    &&& forall|i: int, j: int| 0 <= i < j < out.len() ==> #[trigger] out[i] != #[trigger] out[j]
    &&& forall|i: int| 0 <= i < out.len() ==> {
        let r = #[trigger] out[i] as int;
        &&& r < t.state().log.indexed
        &&& t.state().log.is_live_row(r)
        &&& t.index_has(f, key, t.state().log.ids[r])
    }
    &&& forall|x: u128| t.index_has(f, key, x) && t.state().log.is_live(x) ==>
        #[trigger] out.contains(t.state().log.latest_row(x)->0 as usize)
}

/// `out` are the rows of a lookup of `key` in hash index `f` at a snapshot
/// taken at row count `w`: each is the version a record the index holds
/// under `key` has at the snapshot, no tombstone and still carrying `key`,
/// once; and every such version is there.
pub open spec fn found_at<R: Record>(t: Table<R>, f: int, key: Seq<char>, w: nat, out: Seq<usize>) -> bool {
    &&& forall|i: int, j: int| 0 <= i < j < out.len() ==> #[trigger] out[i] != #[trigger] out[j]
    &&& forall|i: int| 0 <= i < out.len() ==> {
        let r = #[trigger] out[i] as int;
        &&& r < t.state().log.ids.len()
        &&& t.state().log.row_at(w, t.state().log.ids[r]) == Some(r as nat)
        &&& t.index_has(f, key, t.state().log.ids[r])
        &&& !t.state().log.deleted[r]
        &&& t.state().keys[r][f] == key
    }
    &&& forall|x: u128| t.index_has(f, key, x) && (t.state().log.row_at(w, x) matches Some(r)
        && !t.state().log.deleted[r as int] && t.state().keys[r as int][f] == key) ==>
        #[trigger] out.contains(t.state().log.row_at(w, x)->0 as usize)
}

/// The first row of a lookup, if any: a live record held under `key`, or
/// none when the index holds no live record under it.
pub open spec fn found_first<R: Record>(t: Table<R>, f: int, key: Seq<char>, r: Option<usize>) -> bool {
    match r {
        Some(r) => {
            &&& r < t.state().log.indexed
            &&& t.state().log.is_live_row(r as int)
            &&& t.index_has(f, key, t.state().log.ids[r as int])
        },
        None => forall|x: u128| t.index_has(f, key, x) ==> !t.state().log.is_live(x),
    }
}

/// The first row of a snapshot lookup, if any.
pub open spec fn found_first_at<R: Record>(t: Table<R>, f: int, key: Seq<char>, w: nat, r: Option<usize>) -> bool {
    match r {
        Some(r) => {
            &&& r < t.state().log.ids.len()
            &&& t.state().log.row_at(w, t.state().log.ids[r as int]) == Some(r as nat)
            &&& t.index_has(f, key, t.state().log.ids[r as int])
            &&& !t.state().log.deleted[r as int]
            &&& t.state().keys[r as int][f] == key
        },
        None => forall|x: u128| t.index_has(f, key, x) ==> !(t.state().log.row_at(w, x) matches Some(r)
            && !t.state().log.deleted[r as int] && t.state().keys[r as int][f] == key),
    }
}

/// `out` are the rows of a scan of the ordered index between `lo` and `hi`
/// (inclusive, either open), ascending or descending by value then id, at
/// most `limit` of them.
pub open spec fn ranged<R: Record>(t: Table<R>, lo: Option<u64>, hi: Option<u64>, descending: bool, limit: Option<usize>,
    out: Seq<usize>) -> bool {
    exists|p: Seq<(u64, u128)>| {
        &&& (if descending { sorted_by_pair_desc(p) } else { sorted_by_pair(p) })
        &&& (forall|q: (u64, u128)| #[trigger] p.contains(q) <==> t.ordered_has(q.0, q.1) && in_range(q.0, lo, hi))
        &&& out == range_scan(t.state().log, p, p.len(), limit)
    }
}

/// A lookup under a unique index finds one record at most: in a consistent
/// table where no two live records share a unique key, the lookup returns
/// at most one row, the live row of a record whose key under that index is
/// the key looked up.
pub proof fn lemma_unique_lookup<R: Record>(t: Table<R>, f: int, key: Seq<char>, out: Seq<usize>)
    requires
        t.wf(),
        t.consistent(),
        unique_holds(t),
        0 <= f < R::spec_n_keys(),
        R::spec_unique(f),
        found(t, f, key, out),
    ensures
        out.len() <= 1,
        forall|i: int| 0 <= i < out.len() ==> #[trigger] t.state().keys[out[i] as int][f] == key,
{
    t.lemma_consistent();
    t.lemma_wf();
    let st = t.state();
    let log = st.log;
    assert forall|i: int| 0 <= i < out.len() implies {
        &&& log.latest_row(log.ids[out[i] as int]) == Some(out[i] as nat)
        &&& log.is_live(log.ids[out[i] as int])
        &&& st.key_of(log.ids[out[i] as int], f) == key
        &&& #[trigger] st.keys[out[i] as int][f] == key
    } by {
        let r = out[i] as int;
        assert(log.committed()[r] == log.ids[r]);
        assert(t.index_has(f, key, log.ids[r]));
    }
    if out.len() > 1 {
        let x = log.ids[out[0] as int];
        let y = log.ids[out[1] as int];
        assert(st.keys[out[0] as int][f] == key);
        assert(st.keys[out[1] as int][f] == key);
        assert(st.key_of(x, f) == st.key_of(y, f));
        assert(out[0] != out[1]);
    }
}

/// A snapshot read is kept by later writes: once rows are only appended
/// after a snapshot taken at row count `w` (no compaction in between), the
/// version of every record read at the snapshot, and whether it is a
/// tombstone, are what they were.
pub proof fn lemma_snapshot_reads_kept<R: Record>(a: Table<R>, b: Table<R>, w: nat, x: u128)
    requires
        a.wf(),
        b.wf(),
        w <= a.state().log.indexed,
        a.state().log.indexed <= b.state().log.indexed,
        a.state().log.ids.len() <= b.state().log.ids.len(),
        b.state().log.ids.take(a.state().log.ids.len() as int) == a.state().log.ids,
        b.state().log.deleted.take(a.state().log.ids.len() as int) == a.state().log.deleted,
    ensures
        b.state().log.row_at(w, x) == a.state().log.row_at(w, x),
        b.state().log.row_at(w, x) matches Some(r) ==> b.state().log.deleted[r as int] == a.state().log.deleted[r as int],
{
    a.lemma_wf();
    b.lemma_wf();
    let la = a.state().log;
    let lb = b.state().log;
    assert(lb.ids.take(w as int) =~= la.ids.take(w as int)) by {
        assert forall|k: int| 0 <= k < w implies lb.ids[k] == la.ids[k] by {
            assert(lb.ids.take(la.ids.len() as int)[k] == lb.ids[k]);
        }
    }
    crate::versions::lemma_latest_char(la.ids.take(w as int), x);
    match lb.row_at(w, x) {
        Some(r) => {
            assert(lb.deleted.take(la.ids.len() as int)[r as int] == lb.deleted[r as int]);
        },
        None => {},
    }
}

/// `full` lists, once each, the live rows of the records whose ordered
/// value lies in range, by value: ascending, or descending when asked.
pub open spec fn range_listing<R: Record>(t: Table<R>, lo: Option<u64>, hi: Option<u64>, descending: bool,
    full: Seq<usize>) -> bool {
    &&& forall|i: int| 0 <= i < full.len() ==> {
        &&& (#[trigger] full[i]) < t.state().log.indexed
        &&& t.state().log.is_live_row(full[i] as int)
        &&& in_range(t.state().ords[full[i] as int], lo, hi)
    }
    &&& forall|i: int, j: int| 0 <= i < j < full.len() ==> #[trigger] full[i] != #[trigger] full[j]
        && (if descending {
            t.state().ords[full[j] as int] <= t.state().ords[full[i] as int]
        } else {
            t.state().ords[full[i] as int] <= t.state().ords[full[j] as int]
        })
    &&& forall|x: u128| #[trigger] t.state().log.is_live(x) && in_range(t.state().ord_of(x), lo, hi)
        ==> full.contains(t.state().log.latest_row(x)->0 as usize)
}

/// Over index pairs whose records are all live, a scan without a limit
/// takes each pair's live row.
proof fn lemma_range_scan_all_live(log: LogView, p: Seq<(u64, u128)>, n: nat)
    requires
        n <= p.len(),
        forall|k: int| 0 <= k < p.len() ==> log.is_live(#[trigger] p[k].1),
    ensures
        range_scan(log, p, n, None) == Seq::new(n, |k: int| log.latest_row(p[k].1)->0 as usize),
    decreases n,
{
    if n > 0 {
        lemma_range_scan_all_live(log, p, (n - 1) as nat);
        assert(log.is_live(p[n - 1].1));
        assert(range_scan(log, p, n, None) =~= Seq::new(n, |k: int| log.latest_row(p[k].1)->0 as usize));
    }
}

/// Over index pairs whose records are all live, a limit of `m` keeps the
/// first `m` rows of the scan without a limit.
proof fn lemma_range_scan_limit(log: LogView, p: Seq<(u64, u128)>, n: nat, m: usize)
    requires
        n <= p.len(),
        forall|k: int| 0 <= k < p.len() ==> log.is_live(#[trigger] p[k].1),
    ensures
        range_scan(log, p, n, Some(m)) == range_scan(log, p, n, None).take(if m < n { m as int } else { n as int }),
    decreases n,
{
    lemma_range_scan_all_live(log, p, n);
    if n > 0 {
        lemma_range_scan_limit(log, p, (n - 1) as nat, m);
        lemma_range_scan_all_live(log, p, (n - 1) as nat);
        assert(log.is_live(p[n - 1].1));
        let full = range_scan(log, p, n, None);
        let prev_full = range_scan(log, p, (n - 1) as nat, None);
        if m < n {
            assert(range_scan(log, p, n, Some(m)) =~= full.take(m as int));
        } else {
            assert(full.take(n as int) =~= full);
            assert(prev_full.take((n - 1) as int) =~= prev_full);
            assert(full =~= prev_full.push(log.latest_row(p[n - 1].1)->0 as usize));
        }
    } else {
        assert(range_scan(log, p, 0, None).take(0) =~= Seq::<usize>::empty());
    }
}

/// Whatever the records' states, a limit of `m` keeps the first `m` rows of
/// the scan without a limit.
proof fn lemma_range_scan_limit_any(log: LogView, p: Seq<(u64, u128)>, n: nat, m: usize)
    requires
        n <= p.len(),
    ensures
        range_scan(log, p, n, Some(m)) == range_scan(log, p, n, None).take(
            if m < range_scan(log, p, n, None).len() { m as int } else { range_scan(log, p, n, None).len() as int }),
    decreases n,
{
    if n == 0 {
        assert(range_scan(log, p, 0, None).take(0) =~= Seq::<usize>::empty());
    } else {
        lemma_range_scan_limit_any(log, p, (n - 1) as nat, m);
        let ps = range_scan(log, p, (n - 1) as nat, Some(m));
        let pf = range_scan(log, p, (n - 1) as nat, None);
        let full = range_scan(log, p, n, None);
        if ps.len() >= m {
            assert(m <= pf.len());
            assert(full.take(m as int) =~= pf.take(m as int));
        } else {
            assert(pf.len() < m);
            assert(pf.take(pf.len() as int) =~= pf);
            assert(ps == pf);
            assert(full.take(full.len() as int) =~= full);
        }
    }
}

/// Sorted in the direction asked: ascending, or descending by value with
/// ids ascending.
pub open spec fn pair_sorted(p: Seq<(u64, u128)>, descending: bool) -> bool {
    if descending { sorted_by_pair_desc(p) } else { sorted_by_pair(p) }
}

/// Two lists of index pairs sorted the same way and holding the same pairs
/// are the same list.
proof fn lemma_pair_sorted_unique(p: Seq<(u64, u128)>, q: Seq<(u64, u128)>, descending: bool)
    requires
        pair_sorted(p, descending),
        pair_sorted(q, descending),
        forall|x: (u64, u128)| #[trigger] p.contains(x) <==> q.contains(x),
    ensures
        p == q,
    decreases p.len(),
{
    if p.len() == 0 {
        if q.len() > 0 {
            assert(q.contains(q[0]));
            assert(p.contains(q[0]));
        }
        assert(p =~= q);
    } else {
        assert(p.contains(p[0]));
        let la = p.last();
        let lb = q.last();
        assert(p.contains(la));
        assert(q.contains(la));
        assert(q.contains(lb));
        assert(p.contains(lb));
        let i = choose|i: int| 0 <= i < q.len() && q[i] == la;
        let j = choose|j: int| 0 <= j < p.len() && p[j] == lb;
        if la != lb {
            assert(i < q.len() - 1);
            assert(j < p.len() - 1);
            if descending {
                assert(pair_desc_lt(q[i], q[q.len() - 1]));
                assert(pair_desc_lt(p[j], p[p.len() - 1]));
            } else {
                assert(pair_lt(q[i], q[q.len() - 1]));
                assert(pair_lt(p[j], p[p.len() - 1]));
            }
        }
        let p2 = p.drop_last();
        let q2 = q.drop_last();
        assert forall|x: (u64, u128)| #[trigger] p2.contains(x) <==> q2.contains(x) by {
            if p2.contains(x) {
                let k = choose|k: int| 0 <= k < p2.len() && p2[k] == x;
                assert(p[k] == x);
                if descending { assert(pair_desc_lt(p[k], p[p.len() - 1])); } else { assert(pair_lt(p[k], p[p.len() - 1])); }
                assert(p.contains(x));
                assert(q.contains(x));
                let m = choose|m: int| 0 <= m < q.len() && q[m] == x;
                assert(m != q.len() - 1);
                assert(q2[m] == x);
            }
            if q2.contains(x) {
                let k = choose|k: int| 0 <= k < q2.len() && q2[k] == x;
                assert(q[k] == x);
                if descending { assert(pair_desc_lt(q[k], q[q.len() - 1])); } else { assert(pair_lt(q[k], q[q.len() - 1])); }
                assert(q.contains(x));
                assert(p.contains(x));
                let m = choose|m: int| 0 <= m < p.len() && p[m] == x;
                assert(m != p.len() - 1);
                assert(p2[m] == x);
            }
        }
        assert(pair_sorted(p2, descending));
        assert(pair_sorted(q2, descending));
        lemma_pair_sorted_unique(p2, q2, descending);
        assert(p =~= p2.push(la));
        assert(q =~= q2.push(lb));
    }
}

/// A limit keeps the top of the ordered result: on any table, the rows of a
/// range query with a limit of `n` are the first `n` rows of the same query
/// without a limit (none for a limit of zero).
pub proof fn lemma_range_limit_prefix<R: Record>(t: Table<R>, lo: Option<u64>, hi: Option<u64>, descending: bool,
    n: usize, full: Seq<usize>, out: Seq<usize>)
    requires
        ranged(t, lo, hi, descending, None, full),
        ranged(t, lo, hi, descending, Some(n), out),
    ensures
        out == full.take(if n < full.len() { n as int } else { full.len() as int }),
{
    let log = t.state().log;
    let p = choose|p: Seq<(u64, u128)>| {
        &&& (if descending { sorted_by_pair_desc(p) } else { sorted_by_pair(p) })
        &&& (forall|q: (u64, u128)| #[trigger] p.contains(q) <==> t.ordered_has(q.0, q.1) && in_range(q.0, lo, hi))
        &&& full == range_scan(log, p, p.len(), None)
    };
    let p2 = choose|p2: Seq<(u64, u128)>| {
        &&& (if descending { sorted_by_pair_desc(p2) } else { sorted_by_pair(p2) })
        &&& (forall|q: (u64, u128)| #[trigger] p2.contains(q) <==> t.ordered_has(q.0, q.1) && in_range(q.0, lo, hi))
        &&& out == range_scan(log, p2, p2.len(), Some(n))
    };
    assert forall|x: (u64, u128)| #[trigger] p.contains(x) <==> p2.contains(x) by {
        assert(p.contains(x) <==> t.ordered_has(x.0, x.1) && in_range(x.0, lo, hi));
        assert(p2.contains(x) <==> t.ordered_has(x.0, x.1) && in_range(x.0, lo, hi));
    }
    lemma_pair_sorted_unique(p, p2, descending);
    lemma_range_scan_limit_any(log, p, p.len(), n);
}

/// A range query over a consistent table lists every live record whose
/// ordered value lies in range, once each, sorted by value (descending when
/// asked), and nothing else; a limit of `m` keeps the first `m` of that
/// list (none for a limit of zero).
pub proof fn lemma_range_query<R: Record>(t: Table<R>, lo: Option<u64>, hi: Option<u64>, descending: bool,
    limit: Option<usize>, out: Seq<usize>)
    requires
        t.wf(),
        t.consistent(),
        R::spec_has_ordered(),
        ranged(t, lo, hi, descending, limit, out),
    ensures
        exists|full: Seq<usize>| {
            &&& range_listing(t, lo, hi, descending, full)
            &&& out == (match limit {
                Some(m) => full.take(if m < full.len() { m as int } else { full.len() as int }),
                None => full,
            })
        },
{
    t.lemma_wf();
    t.lemma_consistent();
    let st = t.state();
    let log = st.log;
    let p = choose|p: Seq<(u64, u128)>| {
        &&& (if descending { sorted_by_pair_desc(p) } else { sorted_by_pair(p) })
        &&& (forall|q: (u64, u128)| #[trigger] p.contains(q) <==> t.ordered_has(q.0, q.1) && in_range(q.0, lo, hi))
        &&& out == range_scan(log, p, p.len(), limit)
    };
    assert forall|k: int| 0 <= k < p.len() implies log.is_live(#[trigger] p[k].1) && st.ord_of(p[k].1) == p[k].0
        && in_range(p[k].0, lo, hi) by {
        assert(p.contains(p[k]));
        assert(t.ordered_has(p[k].0, p[k].1));
    }
    lemma_range_scan_all_live(log, p, p.len());
    let full = range_scan(log, p, p.len(), None);
    assert forall|k: int| 0 <= k < p.len() implies {
        &&& (#[trigger] full[k]) < log.indexed
        &&& log.is_live_row(full[k] as int)
        &&& log.ids[full[k] as int] == p[k].1
        &&& st.ords[full[k] as int] == p[k].0
    } by {
        let x = p[k].1;
        assert(log.is_live(x));
        crate::versions::lemma_latest_char(log.committed(), x);
        let r = log.latest_row(x)->0;
        assert(log.committed()[r as int] == log.ids[r as int]);
        assert(full[k] == r as usize);
    }
    assert forall|i: int, j: int| 0 <= i < j < full.len() implies #[trigger] full[i] != #[trigger] full[j]
        && (if descending {
            st.ords[full[j] as int] <= st.ords[full[i] as int]
        } else {
            st.ords[full[i] as int] <= st.ords[full[j] as int]
        }) by {
        assert(full[i] < log.indexed && full[j] < log.indexed);
        assert(log.ids[full[i] as int] == p[i].1 && st.ords[full[i] as int] == p[i].0);
        assert(log.ids[full[j] as int] == p[j].1 && st.ords[full[j] as int] == p[j].0);
        assert(st.ord_of(p[i].1) == p[i].0 && st.ord_of(p[j].1) == p[j].0);
        if descending {
            assert(pair_desc_lt(p[i], p[j]));
        } else {
            assert(pair_lt(p[i], p[j]));
        }
    }
    assert forall|x: u128| #[trigger] log.is_live(x) && in_range(st.ord_of(x), lo, hi)
        implies full.contains(log.latest_row(x)->0 as usize) by {
        assert(t.ordered_has(st.ord_of(x), x));
        assert(p.contains((st.ord_of(x), x)));
        let k = choose|k: int| 0 <= k < p.len() && p[k] == (st.ord_of(x), x);
        assert(full[k] == log.latest_row(x)->0 as usize);
    }
    assert(range_listing(t, lo, hi, descending, full));
    match limit {
        Some(m) => {
            lemma_range_scan_limit(log, p, p.len(), m);
        },
        None => {},
    }
}

/// A lookup in a consistent table is exact: its rows, once each, are the
/// live rows of exactly the live records whose key under index `f` is the
/// key looked up.
pub proof fn lemma_lookup_exact<R: Record>(t: Table<R>, f: int, key: Seq<char>, out: Seq<usize>)
    requires
        t.wf(),
        t.consistent(),
        0 <= f < R::spec_n_keys(),
        found(t, f, key, out),
    ensures
        forall|i: int, j: int| 0 <= i < j < out.len() ==> #[trigger] out[i] != #[trigger] out[j],
        forall|i: int| 0 <= i < out.len() ==> {
            &&& t.state().log.is_live_row(#[trigger] out[i] as int)
            &&& t.state().keys[out[i] as int][f] == key
        },
        forall|x: u128| #[trigger] t.state().log.is_live(x) ==>
            (out.contains(t.state().log.latest_row(x)->0 as usize) <==> t.state().key_of(x, f) == key),
{
    t.lemma_consistent();
    t.lemma_wf();
    let st = t.state();
    let log = st.log;
    assert forall|i: int| 0 <= i < out.len() implies {
        &&& t.state().log.is_live_row(#[trigger] out[i] as int)
        &&& t.state().keys[out[i] as int][f] == key
        &&& log.latest_row(log.ids[out[i] as int]) == Some(out[i] as nat)
    } by {
        let r = out[i] as int;
        assert(log.committed()[r] == log.ids[r]);
        assert(t.index_has(f, key, log.ids[r]));
    }
    assert forall|x: u128| #[trigger] t.state().log.is_live(x) implies
        (out.contains(t.state().log.latest_row(x)->0 as usize) <==> t.state().key_of(x, f) == key) by {
        if out.contains(log.latest_row(x)->0 as usize) {
            let i = choose|i: int| 0 <= i < out.len() && out[i] == log.latest_row(x)->0 as usize;
            crate::versions::lemma_latest_char(log.committed(), x);
            let r = log.latest_row(x)->0;
            assert(log.committed()[r as int] == log.ids[r as int]);
            assert(log.ids[out[i] as int] == x);
        }
        if st.key_of(x, f) == key {
            assert(t.index_has(f, key, x));
        }
    }
}

/// The author key names the author: a post is filed under the key of
/// author `a` exactly when `a` is its author (the hyphenated form of an id
/// names one id).
pub proof fn lemma_author_key_names_author(p: Post, a: u128)
    ensures
        (p.spec_keys()[1] == id_key_spec(a)) <==> p.author == a,
{
    if p.spec_keys()[1] == id_key_spec(a) {
        assert(id_key_spec(p.author).skip(1) =~= crate::ids::hyphenated(p.author));
        assert(id_key_spec(a).skip(1) =~= crate::ids::hyphenated(a));
        crate::ids::lemma_hyphenated_injective(p.author, a);
    }
}

/// Metrics are ordered by device: once metric `m` is written to a metric
/// table that stays consistent (as a new record, or as a new version of
/// `m.id`), the ordered index files `m.id` under `m.device_id` and under no
/// other value, and a range query without a limit lists `m`'s row exactly
/// when its device id lies in the range.
pub proof fn lemma_metric_ordered_by_device(old: Table<Metric>, new: Table<Metric>, m: Metric,
    lo: Option<u64>, hi: Option<u64>, descending: bool, out: Seq<usize>)
    requires
        old.wf(),
        old.state().log.indexed == old.state().log.ids.len(),
        new.wf(),
        new.consistent(),
        new.state() == appended(old.state(), m.id, false, m.spec_keys(), m.spec_ord()),
        ranged(new, lo, hi, descending, None, out),
    ensures
        forall|v: u64| #[trigger] new.ordered_has(v, m.id) <==> v == m.device_id,
        out.contains(old.state().log.ids.len() as usize) <==> in_range(m.device_id, lo, hi),
{
    old.lemma_wf();
    new.lemma_wf();
    new.lemma_consistent();
    let n = old.state().log.ids.len();
    lemma_appended(old.state(), m.id, false, m.spec_keys(), m.spec_ord(), m.id);
    let st = new.state();
    assert(st.log.latest_row(m.id) == Some(n));
    assert(st.log.is_live(m.id));
    assert(st.ord_of(m.id) == m.spec_ord());
    assert(st.ords[n as int] == m.device_id);
    lemma_range_query(new, lo, hi, descending, None, out);
    let full = choose|full: Seq<usize>| {
        &&& range_listing(new, lo, hi, descending, full)
        &&& out == full
    };
    if out.contains(n as usize) {
        let i = choose|i: int| 0 <= i < out.len() && out[i] == n as usize;
        assert(in_range(st.ords[out[i] as int], lo, hi));
    }
    if in_range(m.device_id, lo, hi) {
        assert(st.log.is_live(m.id) && in_range(st.ord_of(m.id), lo, hi));
    }
}

/// Posts are ordered by views: once post `m` is written to a post
/// table that stays consistent (as a new record, or as a new version of
/// `m.id`), the ordered index files `m.id` under `m.views` and under no
/// other value, and a range query without a limit lists `m`'s row exactly
/// when its view count lies in the range.
pub proof fn lemma_post_ordered_by_views(old: Table<Post>, new: Table<Post>, m: Post,
    lo: Option<u64>, hi: Option<u64>, descending: bool, out: Seq<usize>)
    requires
        old.wf(),
        old.state().log.indexed == old.state().log.ids.len(),
        new.wf(),
        new.consistent(),
        new.state() == appended(old.state(), m.id, false, m.spec_keys(), m.spec_ord()),
        ranged(new, lo, hi, descending, None, out),
    ensures
        forall|v: u64| #[trigger] new.ordered_has(v, m.id) <==> v == m.views,
        out.contains(old.state().log.ids.len() as usize) <==> in_range(m.views, lo, hi),
{
    old.lemma_wf();
    new.lemma_wf();
    new.lemma_consistent();
    let n = old.state().log.ids.len();
    lemma_appended(old.state(), m.id, false, m.spec_keys(), m.spec_ord(), m.id);
    let st = new.state();
    assert(st.log.latest_row(m.id) == Some(n));
    assert(st.log.is_live(m.id));
    assert(st.ord_of(m.id) == m.spec_ord());
    assert(st.ords[n as int] == m.views);
    lemma_range_query(new, lo, hi, descending, None, out);
    let full = choose|full: Seq<usize>| {
        &&& range_listing(new, lo, hi, descending, full)
        &&& out == full
    };
    if out.contains(n as usize) {
        let i = choose|i: int| 0 <= i < out.len() && out[i] == n as usize;
        assert(in_range(st.ords[out[i] as int], lo, hi));
    }
    if in_range(m.views, lo, hi) {
        assert(st.log.is_live(m.id) && in_range(st.ord_of(m.id), lo, hi));
    }
}

impl<R: Record> Table<R> {
    fn first_of(&self, rows: Vec<usize>) -> (r: Option<usize>)
        ensures
            rows@.len() == 0 ==> r is None,
            rows@.len() > 0 ==> r == Some(rows@[0]),
    {
        if rows.len() == 0 {
            None
        } else {
            Some(rows[0])
        }
    }

    /// The live row of record `id` at a snapshot taken at row count `w`, if
    /// it has one there.
    pub fn get_at(&self, w: usize, id: u128) -> (r: Option<usize>)
        requires
            self.wf(),
        ensures
            r == (match self.state().log.row_at(w as nat, id) {
                Some(r) => if self.state().log.deleted[r as int] {
                    None
                } else {
                    Some(r as usize)
                },
                None => None,
            }),
    {
        match self.row_at(w, id) {
            Some(r) => {
                proof {
                    let log = self.state().log;
                    crate::versions::lemma_latest_char(log.ids.take(if w < log.indexed { w as int } else { log.indexed as int }), id);
                    self.lemma_wf();
                }
                if self.is_deleted(r) {
                    None
                } else {
                    Some(r)
                }
            },
            None => None,
        }
    }

    /// The rows live at a snapshot taken at row count `w`, ascending.
    pub fn all_at(&self, w: usize) -> (out: Vec<usize>)
        requires
            self.wf(),
        ensures
            strictly_sorted(out@),
            forall|x: usize| #[trigger] out@.contains(x) <==> {
                &&& x < self.state().log.indexed
                &&& x < w
                &&& self.state().log.row_at(w as nat, self.state().log.ids[x as int]) == Some(x as nat)
                &&& !self.state().log.deleted[x as int]
            },
    {
        self.live_rows_at(w)
    }

    /// The rows of every live record, ascending: those an export copies.
    pub fn export_live_indices(&self) -> (out: Vec<usize>)
        requires
            self.wf(),
        ensures
            is_live_row_list(self.state().log, out@),
    {
        self.live_rows()
    }
}

impl Table<User> {
    /// The rows of the live users with email `value`.
    pub fn find_by_email(&self, value: &str) -> (out: Vec<usize>)
        requires
            self.wf(),
        ensures
            found(*self, 0, str_key_spec(value@), out@),
    {
        self.rows_for_key(0, &str_key(value))
    }

    /// The rows of the users with email `value` at a snapshot taken at row
    /// count `w`.
    pub fn find_by_email_at(&self, w: usize, value: &str) -> (out: Vec<usize>)
        requires
            self.wf(),
        ensures
            found_at(*self, 0, str_key_spec(value@), w as nat, out@),
    {
        self.rows_for_key_at(0, &str_key(value), w)
    }

    /// The row of the live user with email `value`, if any.
    pub fn get_by_email(&self, value: &str) -> (r: Option<usize>)
        requires
            self.wf(),
        ensures
            found_first(*self, 0, str_key_spec(value@), r),
    {
        let rows = self.find_by_email(value);
        proof {
            if rows@.len() == 0 {
                assert forall|x: u128| self.index_has(0, str_key_spec(value@), x) implies !self.state().log.is_live(x) by {
                    if self.state().log.is_live(x) {
                        assert(rows@.contains(self.state().log.latest_row(x)->0 as usize));
                    }
                }
            } else {
                assert(rows@[0] == rows@[0]);
            }
        }
        self.first_of(rows)
    }

    /// The row of the user with email `value` at a snapshot taken at row
    /// count `w`, if any.
    pub fn get_by_email_at(&self, w: usize, value: &str) -> (r: Option<usize>)
        requires
            self.wf(),
        ensures
            found_first_at(*self, 0, str_key_spec(value@), w as nat, r),
    {
        let rows = self.find_by_email_at(w, value);
        proof {
            if rows@.len() == 0 {
                let key = str_key_spec(value@);
                assert forall|x: u128| self.index_has(0, key, x) implies !(self.state().log.row_at(w as nat, x) matches Some(r)
                    && !self.state().log.deleted[r as int] && self.state().keys[r as int][0] == key) by {
                    if self.state().log.row_at(w as nat, x) matches Some(r) && !self.state().log.deleted[r as int]
                        && self.state().keys[r as int][0] == key {
                        assert(rows@.contains(self.state().log.row_at(w as nat, x)->0 as usize));
                    }
                }
            } else {
                assert(rows@[0] == rows@[0]);
            }
        }
        self.first_of(rows)
    }
}

impl Table<Tag> {
    /// The rows of the live tags named `value`.
    pub fn find_by_name(&self, value: &str) -> (out: Vec<usize>)
        requires
            self.wf(),
        ensures
            found(*self, 0, str_key_spec(value@), out@),
    {
        self.rows_for_key(0, &str_key(value))
    }

    /// The rows of the tags named `value` at a snapshot taken at row count
    /// `w`.
    pub fn find_by_name_at(&self, w: usize, value: &str) -> (out: Vec<usize>)
        requires
            self.wf(),
        ensures
            found_at(*self, 0, str_key_spec(value@), w as nat, out@),
    {
        self.rows_for_key_at(0, &str_key(value), w)
    }

    /// The row of the live tag named `value`, if any.
    pub fn get_by_name(&self, value: &str) -> (r: Option<usize>)
        requires
            self.wf(),
        ensures
            found_first(*self, 0, str_key_spec(value@), r),
    {
        let rows = self.find_by_name(value);
        proof {
            if rows@.len() == 0 {
                assert forall|x: u128| self.index_has(0, str_key_spec(value@), x) implies !self.state().log.is_live(x) by {
                    if self.state().log.is_live(x) {
                        assert(rows@.contains(self.state().log.latest_row(x)->0 as usize));
                    }
                }
            } else {
                assert(rows@[0] == rows@[0]);
            }
        }
        self.first_of(rows)
    }

    /// The row of the tag named `value` at a snapshot taken at row count
    /// `w`, if any.
    pub fn get_by_name_at(&self, w: usize, value: &str) -> (r: Option<usize>)
        requires
            self.wf(),
        ensures
            found_first_at(*self, 0, str_key_spec(value@), w as nat, r),
    {
        let rows = self.find_by_name_at(w, value);
        proof {
            if rows@.len() == 0 {
                let key = str_key_spec(value@);
                assert forall|x: u128| self.index_has(0, key, x) implies !(self.state().log.row_at(w as nat, x) matches Some(r)
                    && !self.state().log.deleted[r as int] && self.state().keys[r as int][0] == key) by {
                    if self.state().log.row_at(w as nat, x) matches Some(r) && !self.state().log.deleted[r as int]
                        && self.state().keys[r as int][0] == key {
                        assert(rows@.contains(self.state().log.row_at(w as nat, x)->0 as usize));
                    }
                }
            } else {
                assert(rows@[0] == rows@[0]);
            }
        }
        self.first_of(rows)
    }
}

impl Table<Post> {
    /// The rows of the live posts with `value` views.
    pub fn find_by_views(&self, value: u64) -> (out: Vec<usize>)
        requires
            self.wf(),
        ensures
            found(*self, 0, u64_key_spec(value), out@),
    {
        self.rows_for_key(0, &u64_key(value))
    }

    /// The rows of the posts with `value` views at a snapshot taken at row
    /// count `w`.
    pub fn find_by_views_at(&self, w: usize, value: u64) -> (out: Vec<usize>)
        requires
            self.wf(),
        ensures
            found_at(*self, 0, u64_key_spec(value), w as nat, out@),
    {
        self.rows_for_key_at(0, &u64_key(value), w)
    }

    /// The rows of the live posts by author `value`.
    pub fn find_by_author(&self, value: u128) -> (out: Vec<usize>)
        requires
            self.wf(),
        ensures
            found(*self, 1, id_key_spec(value), out@),
    {
        self.rows_for_key(1, &id_key(value))
    }

    /// The rows of the posts by author `value` at a snapshot taken at row
    /// count `w`.
    pub fn find_by_author_at(&self, w: usize, value: u128) -> (out: Vec<usize>)
        requires
            self.wf(),
        ensures
            found_at(*self, 1, id_key_spec(value), w as nat, out@),
    {
        self.rows_for_key_at(1, &id_key(value), w)
    }

    /// The rows of the live posts whose views lie between `min` and `max`,
    /// by views then id, ascending or descending, at most `limit` of them.
    pub fn find_by_views_range(&self, min: Option<u64>, max: Option<u64>, descending: bool, limit: Option<usize>)
        -> (out: Vec<usize>)
        requires
            self.wf(),
        ensures
            ranged(*self, min, max, descending, limit, out@),
    {
        self.range_rows(min, max, descending, limit)
    }
}

impl Table<Metric> {
    /// The rows of the live samples of device `value`.
    pub fn find_by_device_id(&self, value: u64) -> (out: Vec<usize>)
        requires
            self.wf(),
        ensures
            found(*self, 0, u64_key_spec(value), out@),
    {
        self.rows_for_key(0, &u64_key(value))
    }

    /// The rows of the samples of device `value` at a snapshot taken at row
    /// count `w`.
    pub fn find_by_device_id_at(&self, w: usize, value: u64) -> (out: Vec<usize>)
        requires
            self.wf(),
        ensures
            found_at(*self, 0, u64_key_spec(value), w as nat, out@),
    {
        self.rows_for_key_at(0, &u64_key(value), w)
    }

    /// The rows of the live samples whose device lies between `min` and
    /// `max`, by device then id, ascending or descending, at most `limit`
    /// of them.
    pub fn find_by_device_id_range(&self, min: Option<u64>, max: Option<u64>, descending: bool, limit: Option<usize>)
        -> (out: Vec<usize>)
        requires
            self.wf(),
        ensures
            ranged(*self, min, max, descending, limit, out@),
    {
        self.range_rows(min, max, descending, limit)
    }
}

} // verus!
