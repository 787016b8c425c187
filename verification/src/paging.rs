use vstd::prelude::*;
use vstd::seq_lib::to_multiset_update;

verus! {

/// `s` is in ascending order (repeats allowed).
pub open spec fn ascending(s: Seq<usize>) -> bool {
    forall|a: int, b: int| 0 <= a < b < s.len() ==> s[a] <= s[b]
}

/// Sorts row numbers ascending, keeping every one (with its repeats).
pub fn sort_rows(v: Vec<usize>) -> (out: Vec<usize>)
    ensures
        ascending(out@),
        out@.to_multiset() == v@.to_multiset(),
        out@.len() == v@.len(),
{
    broadcast use to_multiset_update;
    broadcast use vstd::multiset::group_multiset_axioms;
    let mut v = v;
    let ghost orig = v@;
    let n = v.len();
    let mut i: usize = 1;
    if n == 0 {
        return v;
    }
    while i < n
        invariant
            1 <= i <= n,
            n == v@.len(),
            v@.to_multiset() == orig.to_multiset(),
            forall|a: int, b: int| 0 <= a < b < i ==> v@[a] <= v@[b],
        decreases n - i,
    {
        let mut j: usize = i;
        while j > 0 && v[j - 1] > v[j]
            invariant
                0 <= j <= i < n,
                n == v@.len(),
                v@.to_multiset() == orig.to_multiset(),
                forall|a: int, b: int| 0 <= a < b <= i && a != j && b != j ==> v@[a] <= v@[b],
                forall|b: int| j < b <= i ==> v@[j as int] <= #[trigger] v@[b],
            decreases j,
        {
            let x = v[j - 1];
            let y = v[j];
            let ghost m0 = v@;
            v.set(j - 1, y);
            let ghost m1 = v@;
            v.set(j, x);
            proof {
                assert(m1 =~= m0.update(j - 1, y));
                to_multiset_update(m0, j - 1, y);
                assert(v@ =~= m1.update(j as int, x));
                to_multiset_update(m1, j as int, x);
                m0.to_multiset_ensures();
                assert(m0[j - 1] == x && m0.contains(x));
                assert(m0.to_multiset().count(x) > 0);
                assert(v@.to_multiset() =~= m0.to_multiset());
            }
            j = j - 1;
        }
        proof {
            assert forall|a: int, b: int| 0 <= a < b <= i implies v@[a] <= v@[b] by {
                if b == j && a < j - 1 {
                    assert(v@[a] <= v@[j - 1]);
                }
            }
        }
        i = i + 1;
    }
    v
}

/// The first slot of a page and the slot after its last: the offset and the
/// offset plus the limit (saturating), each capped at the number of rows.
pub fn page_window(total: usize, offset: usize, limit: usize) -> (w: (usize, usize))
    ensures
        w.0 == (if offset <= total { offset } else { total }),
        w.1 == (if offset + limit <= total { (offset + limit) as usize } else { total }),
        w.0 <= w.1 <= total,
{
    let start = if offset <= total { offset } else { total };
    let end_raw = offset.saturating_add(limit);
    let end = if end_raw <= total { end_raw } else { total };
    (start, end)
}

/// The slots whose flag is set, in order.
pub open spec fn kept(keep: Seq<bool>) -> Seq<usize>
    decreases keep.len(),
{
    if keep.len() == 0 {
        Seq::empty()
    } else if keep.last() {
        kept(keep.drop_last()).push((keep.len() - 1) as usize)
    } else {
        kept(keep.drop_last())
    }
}

/// The slots a filter kept, given its answer for each slot.
pub fn kept_slots(keep: &Vec<bool>) -> (out: Vec<usize>)
    ensures
        out@ == kept(keep@),
{
    let mut out: Vec<usize> = Vec::new();
    let mut i: usize = 0;
    while i < keep.len()
        invariant
            i <= keep@.len(),
            out@ == kept(keep@.take(i as int)),
        decreases keep@.len() - i,
    {
        proof {
            assert(keep@.take(i + 1).drop_last() =~= keep@.take(i as int));
        }
        if keep[i] {
            out.push(i);
        }
        i = i + 1;
    }
    proof {
        assert(keep@.take(keep@.len() as int) =~= keep@);
    }
    out
}

/// One page of a listing: how many rows matched, and the rows of the page.
#[derive(Debug)]
pub struct Page {
    pub total: usize,
    pub rows: Vec<usize>,
}

/// The rows of the page `[offset, offset + limit)` of a listing whose
/// matches, in their final order, are the slots `order` into `rows`.
pub open spec fn page_of(rows: Seq<usize>, order: Seq<usize>, offset: nat, limit: nat) -> Seq<usize> {
    let start = if offset <= order.len() { offset } else { order.len() };
    let end = if offset + limit <= order.len() { offset + limit } else { order.len() };
    Seq::new((end - start) as nat, |i: int| rows[order[start + i] as int])
}

/// Cuts a page out of a listing: `order` holds, in the listing's order, the
/// slots (into `rows`) that matched.
pub fn page_rows(rows: &Vec<usize>, order: &Vec<usize>, offset: usize, limit: usize) -> (p: Page)
    requires
        forall|i: int| 0 <= i < order@.len() ==> (#[trigger] order@[i]) < rows@.len(),
    ensures
        p.total == order@.len(),
        p.rows@ == page_of(rows@, order@, offset as nat, limit as nat),
{
    let total = order.len();
    let (start, end) = page_window(total, offset, limit);
    let mut out: Vec<usize> = Vec::new();
    let mut k: usize = start;
    while k < end
        invariant
            start <= k <= end <= total,
            total == order@.len(),
            forall|i: int| 0 <= i < order@.len() ==> (#[trigger] order@[i]) < rows@.len(),
            out@.len() == k - start,
            forall|i: int| 0 <= i < out@.len() ==> #[trigger] out@[i] == rows@[order@[start + i] as int],
        decreases end - k,
    {
        let slot = order[k];
        out.push(rows[slot]);
        k = k + 1;
    }
    let p = Page { total, rows: out };
    assert(p.rows@ =~= page_of(rows@, order@, offset as nat, limit as nat));
    p
}

/// The rows of the page `[offset, offset + limit)` of an unfiltered,
/// unsorted listing of `rows`.
pub fn fast_page_rows(rows: &Vec<usize>, offset: usize, limit: usize) -> (p: Page)
    ensures
        p.total == rows@.len(),
        p.rows@ == rows@.subrange(
            (if offset <= rows@.len() { offset as int } else { rows@.len() as int }),
            (if offset + limit <= rows@.len() { offset + limit } else { rows@.len() as int }),
        ),
{
    let total = rows.len();
    let (start, end) = page_window(total, offset, limit);
    let mut out: Vec<usize> = Vec::new();
    let mut k: usize = start;
    while k < end
        invariant
            start <= k <= end <= total,
            total == rows@.len(),
            out@ == rows@.subrange(start as int, k as int),
        decreases end - k,
    {
        out.push(rows[k]);
        k = k + 1;
        assert(out@ =~= rows@.subrange(start as int, k as int));
    }
    Page { total, rows: out }
}

/// What a page is: for a listing of `order.len()` matches, the page from
/// `offset` holds `limit` rows, or fewer when the listing ends first (none
/// when `offset` is past its end); its `k`-th row is the row of match
/// `offset + k`. Consecutive pages join into the page that spans both,
/// the page from 0 of the listing's length is the whole listing, and
/// through the listing's own order a page is the window a fast page cuts.
pub proof fn lemma_page_laws(rows: Seq<usize>, order: Seq<usize>, offset: nat, limit: nat, more: nat)
    requires
        rows.len() <= usize::MAX,
    ensures
        page_of(rows, order, offset, limit).len() == (if offset >= order.len() {
            0
        } else if offset + limit <= order.len() {
            limit as int
        } else {
            order.len() - offset
        }),
        forall|k: int| 0 <= k < page_of(rows, order, offset, limit).len() ==>
            #[trigger] page_of(rows, order, offset, limit)[k] == rows[order[offset + k] as int],
        page_of(rows, order, offset, limit) + page_of(rows, order, offset + limit, more)
            == page_of(rows, order, offset, limit + more),
        page_of(rows, order, 0, order.len()) == Seq::new(order.len(), |k: int| rows[order[k] as int]),
        page_of(rows, Seq::new(rows.len(), |k: int| k as usize), offset, limit) == rows.subrange(
            (if offset <= rows.len() { offset as int } else { rows.len() as int }),
            (if offset + limit <= rows.len() { (offset + limit) as int } else { rows.len() as int }),
        ),
{
    let a = page_of(rows, order, offset, limit);
    let b = page_of(rows, order, offset + limit, more);
    let c = page_of(rows, order, offset, limit + more);
    assert(a + b =~= c);
    assert(page_of(rows, order, 0, order.len()) =~= Seq::new(order.len(), |k: int| rows[order[k] as int]));
    let id = Seq::new(rows.len(), |k: int| k as usize);
    let start = if offset <= rows.len() { offset as int } else { rows.len() as int };
    let end: int = if offset + limit <= rows.len() { (offset + limit) as int } else { rows.len() as int };
    assert forall|k: int| 0 <= k < end - start implies #[trigger] id[start + k] as int == start + k by {}
    assert(page_of(rows, id, offset, limit) =~= rows.subrange(start, end));
}

/// What a filter keeps: exactly the slots whose flag is set, each once, in
/// ascending order, as many as there are set flags.
pub proof fn lemma_kept(keep: Seq<bool>)
    requires
        keep.len() <= usize::MAX,
    ensures
        forall|x: usize| #[trigger] kept(keep).contains(x) <==> x < keep.len() && keep[x as int],
        forall|a: int, b: int| 0 <= a < b < kept(keep).len() ==> kept(keep)[a] < kept(keep)[b],
        kept(keep).len() == keep.filter(|b: bool| b).len(),
    decreases keep.len(),
{
    reveal(Seq::filter);
    if keep.len() > 0 {
        let rest = keep.drop_last();
        lemma_kept(rest);
        assert(keep.filter(|b: bool| b) == (if keep.last() {
            rest.filter(|b: bool| b).push(keep.last())
        } else {
            rest.filter(|b: bool| b)
        }));
        let k = kept(keep);
        let r = kept(rest);
        assert forall|x: usize| #[trigger] k.contains(x) <==> x < keep.len() && keep[x as int] by {
            if x < rest.len() {
                assert(rest[x as int] == keep[x as int]);
            }
            if k.contains(x) {
                let i = choose|i: int| 0 <= i < k.len() && k[i] == x;
                if i < r.len() {
                    assert(r[i] == x);
                    assert(r.contains(x));
                }
            }
            if x < keep.len() && keep[x as int] {
                if x < rest.len() {
                    assert(r.contains(x));
                    let i = choose|i: int| 0 <= i < r.len() && r[i] == x;
                    if keep.last() {
                        assert(k[i] == x);
                    }
                } else {
                    assert(k[r.len() as int] == x);
                }
            }
        }
        assert forall|a: int, b: int| 0 <= a < b < k.len() implies k[a] < k[b] by {
            if keep.last() && b == r.len() {
                assert(r.contains(r[a]));
            }
        }
    }
}

} // verus!
