use vstd::prelude::*;
use std::collections::{BTreeMap, BTreeSet};
use vstd::std_specs::iter::IteratorSpec;

verus! {

/// `(value, id)` order: by value, then by id (the order of a map from value
/// to an ordered id set).
pub open spec fn pair_lt(a: (u64, u128), b: (u64, u128)) -> bool {
    a.0 < b.0 || (a.0 == b.0 && a.1 < b.1)
}

/// Descending-value order that keeps ids ascending within one value (how a
/// reversed range over a map of ordered id sets is walked).
pub open spec fn pair_desc_lt(a: (u64, u128), b: (u64, u128)) -> bool {
    a.0 > b.0 || (a.0 == b.0 && a.1 < b.1)
}

pub open spec fn sorted_by_pair(v: Seq<(u64, u128)>) -> bool {
    forall|i: int, j: int| 0 <= i < j < v.len() ==> pair_lt(v[i], v[j])
}

pub open spec fn sorted_by_pair_desc(v: Seq<(u64, u128)>) -> bool {
    forall|i: int, j: int| 0 <= i < j < v.len() ==> pair_desc_lt(v[i], v[j])
}

/// `value` lies in the inclusive range given by optional bounds.
pub open spec fn in_range(value: u64, lo: Option<u64>, hi: Option<u64>) -> bool {
    &&& (lo matches Some(l) ==> l <= value)
    &&& (hi matches Some(h) ==> value <= h)
}

broadcast use vstd::std_specs::btree::group_btree_axioms;

/// The ids of an id set in ascending order.
fn set_ids(s: &BTreeSet<u128>) -> (out: Vec<u128>)
    ensures
        forall|i: int, j: int| 0 <= i < j < out@.len() ==> out@[i] < out@[j],
        forall|x: u128| #[trigger] out@.contains(x) <==> s@.contains(x),
{
    let mut out: Vec<u128> = Vec::new();
    let ghost all = IteratorSpec::remaining(&s.iter());
    proof {
        assert(all.unref().to_set() == s@);
        assert(vstd::std_specs::btree::increasing_seq(all));
        assert(vstd::laws_cmp::obeys_cmp::<&u128>());
        assert forall|i: int, j: int| 0 <= i < j < all.len() implies *all[i] < *all[j] by {
            assert(vstd::std_specs::cmp::OrdSpec::cmp_spec(&all[i], &all[j]) is Less);
        }
        assert(increasing_seq_u128(all));
    }
    for x in it: s.iter()
        invariant
            all == it.seq(),
            increasing_seq_u128(all),
            out@.len() == it.index(),
            forall|i: int| 0 <= i < out@.len() ==> out@[i] == *all[i],
    {
        out.push(*x);
    }
    proof {
        assert(out@ =~= all.unref());
        assert forall|x: u128| #[trigger] out@.contains(x) <==> s@.contains(x) by {
            assert(out@.to_set().contains(x) <==> out@.contains(x));
        }
    }
    out
}

/// A sequence of id references in strictly ascending order.
spec fn increasing_seq_u128(s: Seq<&u128>) -> bool {
    forall|i: int, j: int| 0 <= i < j < s.len() ==> *s[i] < *s[j]
}

/// Each value is below the next.
pub open spec fn strictly_ascending(s: Seq<u64>) -> bool {
    forall|i: int, j: int| 0 <= i < j < s.len() ==> s[i] < s[j]
}

/// `s` holds exactly the members of `d` between `lo` and `hi` inclusive.
pub open spec fn keys_between(s: Seq<u64>, d: Set<u64>, lo: u64, hi: u64) -> bool {
    forall|k: u64| #[trigger] s.contains(k) <==> d.contains(k) && lo <= k <= hi
}

/// The values stored in the map between `lo` and `hi` inclusive, ascending.
///
/// Calls `BTreeMap::range` over `lo..=hi` and keeps the keys: the standard
/// library documents that it walks exactly the entries whose key lies in the
/// range, in ascending key order (it panics when `lo > hi`, which `requires`
/// leaves out).
#[verifier::external_body]
fn keys_in_range(m: &BTreeMap<u64, BTreeSet<u128>>, lo: u64, hi: u64) -> (out: Vec<u64>)
    requires
        lo <= hi,
    ensures
        strictly_ascending(out@),
        keys_between(out@, m@.dom(), lo, hi),
{
    m.range(lo..=hi).map(|(k, _)| *k).collect()
}

/// Appends `(value, id)` for each id, in order.
fn push_group(out: &mut Vec<(u64, u128)>, value: u64, ids: &Vec<u128>)
    ensures
        final(out)@ == old(out)@ + Seq::new(ids@.len(), |t: int| (value, ids@[t])),
{
    let ghost before = out@;
    let mut t: usize = 0;
    while t < ids.len()
        invariant
            t <= ids@.len(),
            out@ == before + Seq::new(t as nat, |q: int| (value, ids@[q])),
        decreases ids@.len() - t,
    {
        out.push((value, ids[t]));
        t = t + 1;
        assert(out@ =~= before + Seq::new(t as nat, |q: int| (value, ids@[q])));
    }
}

/// An ordered secondary index over an unsigned field: for each value, the
/// set of ids of the records holding it, walked in `(value, id)` order for
/// range scans. Values whose id set would be empty are absent.
pub struct OrderedIndex {
    m: BTreeMap<u64, BTreeSet<u128>>,
}

impl OrderedIndex {
    pub closed spec fn has(&self, value: u64, id: u128) -> bool {
        self.m@.contains_key(value) && self.m@[value]@.contains(id)
    }

    pub closed spec fn wf(&self) -> bool {
        forall|v: u64| #[trigger] self.m@.contains_key(v) ==> !self.m@[v]@.is_empty()
    }

    pub fn new() -> (r: Self)
        ensures
            r.wf(),
            forall|val: u64, id: u128| !r.has(val, id),
    {
        OrderedIndex { m: BTreeMap::new() }
    }

    pub fn clear(&mut self)
        ensures
            final(self).wf(),
            forall|val: u64, id: u128| !final(self).has(val, id),
    {
        self.m.clear();
    }

    /// Adds the pair `(value, id)`.
    pub fn insert(&mut self, value: u64, id: u128)
        requires
            old(self).wf(),
        ensures
            final(self).wf(),
            forall|val: u64, x: u128| #[trigger] final(self).has(val, x) <==> old(self).has(val, x) || (val == value && x == id),
    {
        let mut s = match self.m.remove(&value) {
            Some(s) => s,
            None => BTreeSet::new(),
        };
        s.insert(id);
        proof {
            assert(s@.contains(id));
            if s@.is_empty() {
                assert(s@ =~= Set::<u128>::empty());
            }
        }
        self.m.insert(value, s);
    }

    /// Removes the pair `(value, id)`.
    pub fn remove(&mut self, value: u64, id: u128)
        requires
            old(self).wf(),
        ensures
            final(self).wf(),
            forall|val: u64, x: u128| #[trigger] final(self).has(val, x) <==> old(self).has(val, x) && !(val == value && x == id),
    {
        match self.m.remove(&value) {
            Some(mut s) => {
                s.remove(&id);
                if !s.is_empty() {
                    self.m.insert(value, s);
                }
            },
            None => {},
        }
    }
    /// The ids stored under value `k`, ascending.
    fn ids_of(&self, k: u64) -> (ids: Vec<u128>)
        ensures
            forall|i: int, j: int| 0 <= i < j < ids@.len() ==> ids@[i] < ids@[j],
            forall|x: u128| #[trigger] ids@.contains(x) <==> self.has(k, x),
    {
        match self.m.get(&k) {
            Some(s) => set_ids(s),
            None => Vec::new(),
        }
    }

    /// The pairs whose value lies in the inclusive range, ascending by
    /// `(value, id)`, or, when `descending`, by value descending and id
    /// ascending within a value.
    pub fn range(&self, lo: Option<u64>, hi: Option<u64>, descending: bool) -> (out: Vec<(u64, u128)>)
        requires
            self.wf(),
        ensures
            if descending { sorted_by_pair_desc(out@) } else { sorted_by_pair(out@) },
            forall|p: (u64, u128)| #[trigger] out@.contains(p) <==> self.has(p.0, p.1) && in_range(p.0, lo, hi),
    {
        let l: u64 = match lo {
            Some(l) => l,
            None => 0,
        };
        let h: u64 = match hi {
            Some(h) => h,
            None => u64::MAX,
        };
        let mut out: Vec<(u64, u128)> = Vec::new();
        if l > h {
            proof {
                assert forall|p: (u64, u128)| #[trigger] out@.contains(p) <==> self.has(p.0, p.1) && in_range(p.0, lo, hi) by {}
            }
            return out;
        }
        let keys = keys_in_range(&self.m, l, h);
        proof {
            assert forall|v: u64| in_range(v, lo, hi) <==> l <= v <= h by {}
        }
        if !descending {
            let mut i: usize = 0;
            while i < keys.len()
                invariant
                    i <= keys@.len(),
                    forall|a: int, b: int| 0 <= a < b < keys@.len() ==> keys@[a] < keys@[b],
                    sorted_by_pair(out@),
                    forall|q: int, j: int| 0 <= q < out@.len() && i <= j < keys@.len() ==> #[trigger] out@[q].0 < #[trigger] keys@[j],
                    forall|p: (u64, u128)| #[trigger] out@.contains(p) <==>
                        (exists|j: int| 0 <= j < i && keys@[j] == p.0) && self.has(p.0, p.1),
                decreases keys@.len() - i,
            {
                let k = keys[i];
                let ids = self.ids_of(k);
                let ghost before = out@;
                push_group(&mut out, k, &ids);
                proof {
                    let g = Seq::new(ids@.len(), |t: int| (k, ids@[t]));
                    assert(out@ == before + g);
                    assert forall|a: int, b: int| 0 <= a < b < out@.len() implies pair_lt(out@[a], out@[b]) by {
                        if b >= before.len() && a >= before.len() {
                            assert(out@[a] == g[a - before.len()]);
                            assert(out@[b] == g[b - before.len()]);
                        } else if b >= before.len() {
                            assert(out@[a] == before[a]);
                            assert(before[a].0 < keys@[i as int]);
                            assert(out@[b] == g[b - before.len()]);
                        } else {
                            assert(out@[a] == before[a] && out@[b] == before[b]);
                        }
                    }
                    assert forall|q: int, j: int| 0 <= q < out@.len() && i + 1 <= j < keys@.len() implies #[trigger] out@[q].0 < #[trigger] keys@[j] by {
                        if q >= before.len() {
                            assert(out@[q] == g[q - before.len()]);
                            assert(keys@[i as int] < keys@[j]);
                        } else {
                            assert(out@[q] == before[q]);
                            assert(before[q].0 < keys@[j]);
                        }
                    }
                    assert forall|p: (u64, u128)| #[trigger] out@.contains(p) <==>
                        (exists|j: int| 0 <= j < i + 1 && keys@[j] == p.0) && self.has(p.0, p.1) by {
                        if out@.contains(p) {
                            let q = choose|q: int| 0 <= q < out@.len() && out@[q] == p;
                            if q < before.len() {
                                assert(before[q] == p);
                                assert(before.contains(p));
                            } else {
                                assert(g[q - before.len()] == p);
                                assert(ids@.contains(p.1));
                                assert(keys@[i as int] == p.0);
                            }
                        }
                        if (exists|j: int| 0 <= j < i + 1 && keys@[j] == p.0) && self.has(p.0, p.1) {
                            let j = choose|j: int| 0 <= j < i + 1 && keys@[j] == p.0;
                            if j < i {
                                assert(before.contains(p));
                                let q = choose|q: int| 0 <= q < before.len() && before[q] == p;
                                assert(out@[q] == p);
                            } else {
                                assert(ids@.contains(p.1));
                                let t = choose|t: int| 0 <= t < ids@.len() && ids@[t] == p.1;
                                assert(out@[before.len() + t] == g[t]);
                            }
                        }
                    }
                }
                i = i + 1;
            }
            proof {
                assert forall|p: (u64, u128)| #[trigger] out@.contains(p) <==> self.has(p.0, p.1) && in_range(p.0, lo, hi) by {
                    if self.has(p.0, p.1) && in_range(p.0, lo, hi) {
                        assert(keys@.contains(p.0));
                    }
                    if out@.contains(p) {
                        let j = choose|j: int| 0 <= j < i && keys@[j] == p.0;
                        assert(keys@.contains(keys@[j]));
                    }
                }
            }
        } else {
            let mut i: usize = keys.len();
            while i > 0
                invariant
                    i <= keys@.len(),
                    forall|a: int, b: int| 0 <= a < b < keys@.len() ==> keys@[a] < keys@[b],
                    sorted_by_pair_desc(out@),
                    forall|q: int, j: int| 0 <= q < out@.len() && 0 <= j < i ==> #[trigger] out@[q].0 > #[trigger] keys@[j],
                    forall|p: (u64, u128)| #[trigger] out@.contains(p) <==>
                        (exists|j: int| i <= j < keys@.len() && keys@[j] == p.0) && self.has(p.0, p.1),
                decreases i,
            {
                let k = keys[i - 1];
                let ids = self.ids_of(k);
                let ghost before = out@;
                push_group(&mut out, k, &ids);
                proof {
                    let g = Seq::new(ids@.len(), |t: int| (k, ids@[t]));
                    assert(out@ == before + g);
                    assert forall|a: int, b: int| 0 <= a < b < out@.len() implies pair_desc_lt(out@[a], out@[b]) by {
                        if b >= before.len() && a >= before.len() {
                            assert(out@[a] == g[a - before.len()]);
                            assert(out@[b] == g[b - before.len()]);
                        } else if b >= before.len() {
                            assert(out@[a] == before[a]);
                            assert(before[a].0 > keys@[i - 1]);
                            assert(out@[b] == g[b - before.len()]);
                        } else {
                            assert(out@[a] == before[a] && out@[b] == before[b]);
                        }
                    }
                    assert forall|q: int, j: int| 0 <= q < out@.len() && 0 <= j < i - 1 implies #[trigger] out@[q].0 > #[trigger] keys@[j] by {
                        if q >= before.len() {
                            assert(out@[q] == g[q - before.len()]);
                            assert(keys@[j] < keys@[i - 1]);
                        } else {
                            assert(out@[q] == before[q]);
                            assert(before[q].0 > keys@[j]);
                        }
                    }
                    assert forall|p: (u64, u128)| #[trigger] out@.contains(p) <==>
                        (exists|j: int| i - 1 <= j < keys@.len() && keys@[j] == p.0) && self.has(p.0, p.1) by {
                        if out@.contains(p) {
                            let q = choose|q: int| 0 <= q < out@.len() && out@[q] == p;
                            if q < before.len() {
                                assert(before[q] == p);
                                assert(before.contains(p));
                            } else {
                                assert(g[q - before.len()] == p);
                                assert(ids@.contains(p.1));
                                assert(keys@[i - 1] == p.0);
                            }
                        }
                        if (exists|j: int| i - 1 <= j < keys@.len() && keys@[j] == p.0) && self.has(p.0, p.1) {
                            let j = choose|j: int| i - 1 <= j < keys@.len() && keys@[j] == p.0;
                            if j >= i {
                                assert(before.contains(p));
                                let q = choose|q: int| 0 <= q < before.len() && before[q] == p;
                                assert(out@[q] == p);
                            } else {
                                assert(ids@.contains(p.1));
                                let t = choose|t: int| 0 <= t < ids@.len() && ids@[t] == p.1;
                                assert(out@[before.len() + t] == g[t]);
                            }
                        }
                    }
                }
                i = i - 1;
            }
            proof {
                assert forall|p: (u64, u128)| #[trigger] out@.contains(p) <==> self.has(p.0, p.1) && in_range(p.0, lo, hi) by {
                    if self.has(p.0, p.1) && in_range(p.0, lo, hi) {
                        assert(keys@.contains(p.0));
                    }
                    if out@.contains(p) {
                        let j = choose|j: int| 0 <= j < keys@.len() && keys@[j] == p.0;
                        assert(keys@.contains(keys@[j]));
                    }
                }
            }
        }
        out
    }
}

} // verus!
