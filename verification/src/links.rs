use vstd::prelude::*;
use std::collections::HashMap;
use crate::keyindex::{distinct, lemma_push_contains_u128};
use crate::ids::{be_bytes, id_from_bytes, id_from_be_bytes, uuid_bytes_from_u128, lemma_be_roundtrip};

verus! {

broadcast use vstd::std_specs::hash::group_hash_axioms;

/// The deleted flag of the last row that records the pair `(l, r)`, if any.
pub open spec fn pair_state(s: Seq<(u128, u128, bool)>, l: u128, r: u128) -> Option<bool>
    decreases s.len(),
{
    if s.len() == 0 {
        None
    } else if s.last().0 == l && s.last().1 == r {
        Some(s.last().2)
    } else {
        pair_state(s.drop_last(), l, r)
    }
}

/// `(l, r)` is linked after the rows `s`: its last row is no unlink.
pub open spec fn linked(s: Seq<(u128, u128, bool)>, l: u128, r: u128) -> bool {
    pair_state(s, l, r) == Some(false)
}

/// Row `i` is the first to record its pair.
pub open spec fn first_seen(s: Seq<(u128, u128, bool)>, i: int) -> bool {
    forall|j: int| 0 <= j < i ==> !((#[trigger] s[j]).0 == s[i].0 && s[j].1 == s[i].1)
}

/// The linked pairs after rows `s`, among the first `k` rows, in the order
/// in which each pair first appeared.
pub open spec fn live_pairs(s: Seq<(u128, u128, bool)>, k: nat) -> Seq<(u128, u128)>
    decreases k,
{
    if k == 0 || k > s.len() {
        Seq::empty()
    } else {
        let i = k - 1;
        let rest = live_pairs(s, (k - 1) as nat);
        if first_seen(s, i) && linked(s, s[i].0, s[i].1) {
            rest.push((s[i].0, s[i].1))
        } else {
            rest
        }
    }
}

/// The pairs listed after rows `s` are exactly the linked ones.
pub proof fn lemma_live_pairs_are_linked(s: Seq<(u128, u128, bool)>, l: u128, r: u128)
    ensures
        live_pairs(s, s.len()).contains((l, r)) <==> linked(s, l, r),
{
    lemma_live_pairs_prefix(s, s.len(), l, r);
    if linked(s, l, r) {
        lemma_pair_state_has_row(s, l, r);
        let i = choose|i: int| 0 <= i < s.len() && s[i].0 == l && s[i].1 == r;
        lemma_first_row_of_pair(s, i);
    }
}

proof fn lemma_pair_state_has_row(s: Seq<(u128, u128, bool)>, l: u128, r: u128)
    requires
        pair_state(s, l, r) is Some,
    ensures
        exists|i: int| 0 <= i < s.len() && s[i].0 == l && s[i].1 == r,
    decreases s.len(),
{
    if !(s.last().0 == l && s.last().1 == r) {
        lemma_pair_state_has_row(s.drop_last(), l, r);
        let i = choose|i: int| 0 <= i < s.drop_last().len() && s.drop_last()[i].0 == l && s.drop_last()[i].1 == r;
        assert(s[i] == s.drop_last()[i]);
    } else {
        assert(s[s.len() - 1].0 == l);
    }
}

proof fn lemma_first_row_of_pair(s: Seq<(u128, u128, bool)>, i: int)
    requires
        0 <= i < s.len(),
    ensures
        exists|j: int| 0 <= j <= i && first_seen(s, j) && s[j].0 == s[i].0 && s[j].1 == s[i].1,
    decreases i,
{
    if first_seen(s, i) {
    } else {
        let j = choose|j: int| 0 <= j < i && (#[trigger] s[j]).0 == s[i].0 && s[j].1 == s[i].1;
        lemma_first_row_of_pair(s, j);
    }
}

proof fn lemma_live_pairs_prefix(s: Seq<(u128, u128, bool)>, k: nat, l: u128, r: u128)
    requires
        k <= s.len(),
    ensures
        live_pairs(s, k).contains((l, r)) <==> (linked(s, l, r) && exists|j: int|
            0 <= j < k && first_seen(s, j) && s[j].0 == l && s[j].1 == r),
    decreases k,
{
    if k > 0 {
        lemma_live_pairs_prefix(s, (k - 1) as nat, l, r);
        let i = k - 1;
        let rest = live_pairs(s, (k - 1) as nat);
        if first_seen(s, i) && linked(s, s[i].0, s[i].1) {
            assert(live_pairs(s, k) == rest.push((s[i].0, s[i].1)));
            assert(rest.push((s[i].0, s[i].1))[rest.len() as int] == (s[i].0, s[i].1));
            if live_pairs(s, k).contains((l, r)) {
                let m = choose|m: int| 0 <= m < live_pairs(s, k).len() && live_pairs(s, k)[m] == (l, r);
                if m < rest.len() {
                    assert(rest[m] == (l, r));
                }
            }
            if rest.contains((l, r)) {
                let m = choose|m: int| 0 <= m < rest.len() && rest[m] == (l, r);
                assert(live_pairs(s, k)[m] == (l, r));
            }
        }
    }
}

/// `v` without the id `id`, order kept.
pub open spec fn without_id(v: Seq<u128>, id: u128) -> Seq<u128> {
    v.filter(|y: u128| y != id)
}

/// The live pairs are listed once each.
pub proof fn lemma_live_pairs_distinct(s: Seq<(u128, u128, bool)>, k: nat)
    requires
        k <= s.len(),
    ensures
        forall|a: int, b: int| 0 <= a < b < live_pairs(s, k).len() ==> live_pairs(s, k)[a] != live_pairs(s, k)[b],
    decreases k,
{
    if k > 0 {
        lemma_live_pairs_distinct(s, (k - 1) as nat);
        let i = k - 1;
        let rest = live_pairs(s, (k - 1) as nat);
        if first_seen(s, i) && linked(s, s[i].0, s[i].1) {
            let e = (s[i].0, s[i].1);
            assert(!rest.contains(e)) by {
                lemma_live_pairs_prefix(s, (k - 1) as nat, e.0, e.1);
                if rest.contains(e) {
                    let j = choose|j: int| 0 <= j < k - 1 && first_seen(s, j) && s[j].0 == e.0 && s[j].1 == e.1;
                    assert(!((s[j]).0 == s[i].0 && s[j].1 == s[i].1));
                }
            }
            let p = rest.push(e);
            assert forall|a: int, b: int| 0 <= a < b < p.len() implies p[a] != p[b] by {
                if b == rest.len() {
                    assert(rest.contains(p[a]));
                }
            }
        }
    }
}

/// The second members of the pairs in `p` whose first member is `l`, in order.
pub open spec fn rights_in(p: Seq<(u128, u128)>, l: u128) -> Seq<u128>
    decreases p.len(),
{
    if p.len() == 0 {
        Seq::empty()
    } else if p.last().0 == l {
        rights_in(p.drop_last(), l).push(p.last().1)
    } else {
        rights_in(p.drop_last(), l)
    }
}

/// The first members of the pairs in `p` whose second member is `r`, in order.
pub open spec fn lefts_in(p: Seq<(u128, u128)>, r: u128) -> Seq<u128>
    decreases p.len(),
{
    if p.len() == 0 {
        Seq::empty()
    } else if p.last().1 == r {
        lefts_in(p.drop_last(), r).push(p.last().0)
    } else {
        lefts_in(p.drop_last(), r)
    }
}

/// A map from one side's id to the ids linked to it on the other side.
pub open spec fn side_has(m: Map<u128, Vec<u128>>, a: u128, b: u128) -> bool {
    m.contains_key(a) && m[a]@.contains(b)
}

/// Each list holds distinct ids and none is empty.
pub open spec fn side_wf(m: Map<u128, Vec<u128>>) -> bool {
    forall|a: u128| #[trigger] m.contains_key(a) ==> distinct(m[a]@) && m[a]@.len() > 0
}

/// The list kept for `a` (empty when there is none).
pub open spec fn side_list(m: Map<u128, Vec<u128>>, a: u128) -> Seq<u128> {
    if m.contains_key(a) {
        m[a]@
    } else {
        Seq::empty()
    }
}

fn side_add(m: &mut HashMap<u128, Vec<u128>>, a: u128, b: u128)
    requires
        side_wf(old(m)@),
    ensures
        side_wf(final(m)@),
        forall|x: u128, y: u128| #[trigger] side_has(final(m)@, x, y) <==> side_has(old(m)@, x, y) || (x == a && y == b),
        side_list(final(m)@, a) == (if side_list(old(m)@, a).contains(b) {
            side_list(old(m)@, a)
        } else {
            side_list(old(m)@, a).push(b)
        }),
        forall|x: u128| x != a ==> side_list(final(m)@, x) == side_list(old(m)@, x),
{
    let mut v: Vec<u128> = match m.get(&a) {
        Some(v) => v.clone(),
        None => Vec::new(),
    };
    assert(v@ == side_list(m@, a));
    let mut i: usize = 0;
    let mut found = false;
    while i < v.len()
        invariant
            i <= v@.len(),
            !found ==> forall|j: int| 0 <= j < i ==> v@[j] != b,
            found ==> v@.contains(b),
        decreases v@.len() - i,
    {
        if v[i] == b {
            found = true;
        }
        i = i + 1;
    }
    if !found {
        let ghost before = v@;
        v.push(b);
        proof {
            lemma_push_contains_u128(before, b);
            assert forall|p: int, q: int| 0 <= p < q < v@.len() implies v@[p] != v@[q] by {
                if q == v@.len() - 1 {
                    assert(before.contains(v@[p]));
                }
            }
        }
        m.insert(a, v);
        proof {
            assert forall|x: u128, y: u128| #[trigger] side_has(m@, x, y) <==> side_has(old(m)@, x, y) || (x == a && y == b) by {
                if x == a {
                    lemma_push_contains_u128(before, b);
                }
            }
        }
    }
}

/// One step of `without_id`: the last element stays unless it is `id`.
proof fn lemma_without_id_step(v: Seq<u128>, id: u128)
    requires
        v.len() > 0,
    ensures
        without_id(v, id) == (if v.last() != id {
            without_id(v.drop_last(), id).push(v.last())
        } else {
            without_id(v.drop_last(), id)
        }),
{
    reveal(Seq::filter);
}

/// What dropping `id` keeps: every other member, each as often as before,
/// and the order; nothing changes when `id` is absent.
pub proof fn lemma_without_id(v: Seq<u128>, id: u128)
    ensures
        forall|x: u128| #[trigger] without_id(v, id).contains(x) <==> v.contains(x) && x != id,
        distinct(v) ==> distinct(without_id(v, id)),
        !v.contains(id) ==> without_id(v, id) == v,
    decreases v.len(),
{
    if v.len() == 0 {
        reveal(Seq::filter);
        assert(without_id(v, id) =~= v);
    } else {
        let w = v.drop_last();
        let e = v.last();
        lemma_without_id(w, id);
        lemma_without_id_step(v, id);
        let fw = without_id(w, id);
        assert(v =~= w.push(e));
        lemma_push_contains_u128(w, e);
        if e != id {
            lemma_push_contains_u128(fw, e);
            if distinct(v) {
                assert(distinct(w));
                assert(!fw.contains(e)) by {
                    if fw.contains(e) {
                        let k = choose|k: int| 0 <= k < w.len() && w[k] == e;
                        assert(v[k] == v[v.len() - 1]);
                    }
                }
                assert forall|p: int, q: int| 0 <= p < q < fw.push(e).len() implies fw.push(e)[p]
                    != fw.push(e)[q] by {
                    if q == fw.len() {
                        assert(fw.contains(fw[p]));
                    }
                }
            }
        } else {
            if distinct(v) {
                assert(distinct(w));
            }
            assert(v.contains(id)) by {
                assert(v[v.len() - 1] == id);
            }
        }
    }
}

/// Copies `v` without `id`.
fn list_without(v: &Vec<u128>, id: u128) -> (out: Vec<u128>)
    requires
        distinct(v@),
    ensures
        distinct(out@),
        forall|x: u128| #[trigger] out@.contains(x) <==> v@.contains(x) && x != id,
        out@ == without_id(v@, id),
{
    let mut out: Vec<u128> = Vec::new();
    let mut i: usize = 0;
    proof {
        reveal(Seq::filter);
        assert(without_id(v@.take(0), id) =~= Seq::<u128>::empty());
    }
    while i < v.len()
        invariant
            i <= v@.len(),
            distinct(v@),
            out@ == without_id(v@.take(i as int), id),
        decreases v@.len() - i,
    {
        let x = v[i];
        proof {
            assert(v@.take(i + 1).drop_last() =~= v@.take(i as int));
            lemma_without_id_step(v@.take(i + 1), id);
        }
        if x != id {
            out.push(x);
        }
        i = i + 1;
    }
    assert(v@.take(v@.len() as int) =~= v@);
    proof {
        lemma_without_id(v@, id);
    }
    out
}

fn side_remove(m: &mut HashMap<u128, Vec<u128>>, a: u128, b: u128)
    requires
        side_wf(old(m)@),
    ensures
        side_wf(final(m)@),
        forall|x: u128, y: u128| #[trigger] side_has(final(m)@, x, y) <==> side_has(old(m)@, x, y) && !(x == a && y == b),
        side_list(final(m)@, a) == without_id(side_list(old(m)@, a), b),
        forall|x: u128| x != a ==> side_list(final(m)@, x) == side_list(old(m)@, x),
{
    match m.get(&a) {
        Some(v) => {
            let w = list_without(v, b);
            if w.len() == 0 {
                m.remove(&a);
                proof {
                    assert(w@ =~= Seq::<u128>::empty());
                    assert forall|x: u128, y: u128| #[trigger] side_has(m@, x, y) <==> side_has(old(m)@, x, y)
                        && !(x == a && y == b) by {
                        if x == a && side_has(old(m)@, x, y) && y != b {
                            assert(w@.contains(y));
                        }
                    }
                }
            } else {
                m.insert(a, w);
                proof {
                    assert forall|k: u128| #[trigger] m@.contains_key(k) implies distinct(m@[k]@) && m@[k]@.len() > 0 by {
                        if k != a {
                            assert(old(m)@.contains_key(k));
                        }
                    }
                }
            }
        },
        None => {
            proof {
                lemma_without_id(Seq::<u128>::empty(), b);
            }
        },
    }
}

/// The junction between posts and tags: an append-only log of link and
/// unlink rows, with a list per post of its linked tags and per tag of its
/// linked posts.
pub struct LinkTable {
    lefts: Vec<u128>,
    rights: Vec<u128>,
    deleted: Vec<bool>,
    left_index: HashMap<u128, Vec<u128>>,
    right_index: HashMap<u128, Vec<u128>>,
}

/// The linked pairs as of the first `end` rows of the log held in `lefts`,
/// `rights` and `deleted`, each once, in first-seen order.
fn pairs_of(lefts: &Vec<u128>, rights: &Vec<u128>, deleted: &Vec<bool>, end: usize) -> (out: Vec<(u128, u128)>)
    requires
        rights@.len() == lefts@.len(),
        deleted@.len() == lefts@.len(),
        end <= lefts@.len(),
    ensures
        out@ == live_pairs(
            Seq::new(lefts@.len(), |i: int| (lefts@[i], rights@[i], deleted@[i])).take(end as int),
            end as nat,
        ),
{
    let ghost all = Seq::new(lefts@.len(), |i: int| (lefts@[i], rights@[i], deleted@[i]));
    let ghost st = all.take(end as int);
    let mut out: Vec<(u128, u128)> = Vec::new();
    let mut i: usize = 0;
    while i < end
        invariant
            i <= end <= lefts@.len(),
            rights@.len() == lefts@.len(),
            deleted@.len() == lefts@.len(),
            all == Seq::new(lefts@.len(), |i: int| (lefts@[i], rights@[i], deleted@[i])),
            st == all.take(end as int),
            out@ == live_pairs(st, i as nat),
        decreases end - i,
    {
        let l = lefts[i];
        let r = rights[i];
        assert(st[i as int] == (l, r, deleted@[i as int]));
        let mut seen = false;
        let mut j: usize = 0;
        while j < i
            invariant
                j <= i < end <= lefts@.len(),
                rights@.len() == lefts@.len(),
                deleted@.len() == lefts@.len(),
                all == Seq::new(lefts@.len(), |i: int| (lefts@[i], rights@[i], deleted@[i])),
                st == all.take(end as int),
                l == lefts@[i as int],
                r == rights@[i as int],
                seen <==> exists|m: int| 0 <= m < j && (#[trigger] st[m]).0 == l && st[m].1 == r,
            decreases i - j,
        {
            if lefts[j] == l && rights[j] == r {
                seen = true;
                assert(st[j as int].0 == l && st[j as int].1 == r);
            }
            proof {
                if !seen {
                    assert forall|m: int| 0 <= m < j + 1 implies !((#[trigger] st[m]).0 == l && st[m].1 == r) by {
                        if m == j {
                        }
                    }
                }
            }
            j = j + 1;
        }
        proof {
            assert(first_seen(st, i as int) == !seen);
        }
        if !seen {
            let mut flag = deleted[i];
            let mut k: usize = i + 1;
            proof {
                assert(st.take(i + 1).last() == st[i as int]);
            }
            while k < end
                invariant
                    i < k <= end <= lefts@.len(),
                    rights@.len() == lefts@.len(),
                    deleted@.len() == lefts@.len(),
                    all == Seq::new(lefts@.len(), |i: int| (lefts@[i], rights@[i], deleted@[i])),
                    st == all.take(end as int),
                    pair_state(st.take(k as int), l, r) == Some(flag),
                decreases end - k,
            {
                proof {
                    assert(st.take(k + 1).drop_last() =~= st.take(k as int));
                    assert(st.take(k + 1).last() == st[k as int]);
                }
                if lefts[k] == l && rights[k] == r {
                    flag = deleted[k];
                }
                k = k + 1;
            }
            proof {
                assert(st.take(end as int) =~= st);
            }
            if !flag {
                out.push((l, r));
            }
        }
        i = i + 1;
    }
    out
}

impl LinkTable {
    /// The log: each row's post, tag and whether it unlinks.
    pub closed spec fn rows(&self) -> Seq<(u128, u128, bool)> {
        Seq::new(self.lefts@.len(), |i: int| (self.lefts@[i], self.rights@[i], self.deleted@[i]))
    }

    /// The tags listed for post `l`, in list order.
    pub closed spec fn rights_list(&self, l: u128) -> Seq<u128> {
        side_list(self.left_index@, l)
    }

    /// The posts listed for tag `r`, in list order.
    pub closed spec fn lefts_list(&self, r: u128) -> Seq<u128> {
        side_list(self.right_index@, r)
    }

    pub closed spec fn wf(&self) -> bool {
        &&& self.rights@.len() == self.lefts@.len()
        &&& self.deleted@.len() == self.lefts@.len()
        &&& side_wf(self.left_index@)
        &&& side_wf(self.right_index@)
        &&& forall|l: u128, r: u128| #[trigger] side_has(self.left_index@, l, r) <==> linked(self.rows(), l, r)
        &&& forall|l: u128, r: u128| #[trigger] side_has(self.right_index@, r, l) <==> linked(self.rows(), l, r)
    }

    /// What the lists of a well-formed table say: each lists every linked
    /// partner once and nothing else.
    pub proof fn lemma_lists(&self)
        requires
            self.wf(),
        ensures
            forall|l: u128, r: u128| #[trigger] self.rights_list(l).contains(r) <==> linked(self.rows(), l, r),
            forall|l: u128, r: u128| #[trigger] self.lefts_list(r).contains(l) <==> linked(self.rows(), l, r),
            forall|l: u128| distinct(#[trigger] self.rights_list(l)),
            forall|r: u128| distinct(#[trigger] self.lefts_list(r)),
    {
        assert forall|l: u128, r: u128| #[trigger] self.rights_list(l).contains(r) <==> linked(self.rows(), l, r) by {
            assert(side_has(self.left_index@, l, r) <==> linked(self.rows(), l, r));
        }
        assert forall|l: u128, r: u128| #[trigger] self.lefts_list(r).contains(l) <==> linked(self.rows(), l, r) by {
            assert(side_has(self.right_index@, r, l) <==> linked(self.rows(), l, r));
        }
        assert forall|l: u128| distinct(#[trigger] self.rights_list(l)) by {
            if self.left_index@.contains_key(l) {
            }
        }
        assert forall|r: u128| distinct(#[trigger] self.lefts_list(r)) by {
            if self.right_index@.contains_key(r) {
            }
        }
    }

    /// An empty junction.
    pub fn new() -> (t: LinkTable)
        ensures
            t.wf(),
            t.rows() == Seq::<(u128, u128, bool)>::empty(),
    {
        let t = LinkTable {
            lefts: Vec::new(),
            rights: Vec::new(),
            deleted: Vec::new(),
            left_index: HashMap::new(),
            right_index: HashMap::new(),
        };
        assert(t.rows() =~= Seq::<(u128, u128, bool)>::empty());
        t
    }

    /// The number of rows in the log.
    pub fn row_count(&self) -> (n: usize)
        requires
            self.wf(),
        ensures
            n == self.rows().len(),
    {
        self.lefts.len()
    }

    fn push_row(&mut self, l: u128, r: u128, d: bool)
        requires
            old(self).wf(),
        ensures
            final(self).rows() == old(self).rows().push((l, r, d)),
            final(self).left_index == old(self).left_index,
            final(self).right_index == old(self).right_index,
            final(self).rights@.len() == final(self).lefts@.len(),
            final(self).deleted@.len() == final(self).lefts@.len(),
    {
        self.lefts.push(l);
        self.rights.push(r);
        self.deleted.push(d);
        assert(self.rows() =~= old(self).rows().push((l, r, d)));
    }

    /// Links post `l` to tag `r`: appends a link row; the lists gain the
    /// pair if they lacked it.
    pub fn link(&mut self, l: u128, r: u128)
        requires
            old(self).wf(),
        ensures
            final(self).wf(),
            final(self).rows() == old(self).rows().push((l, r, false)),
            linked(final(self).rows(), l, r),
            forall|x: u128, y: u128| !(x == l && y == r) ==> linked(final(self).rows(), x, y) == linked(old(self).rows(), x, y),
            final(self).rights_list(l) == (if old(self).rights_list(l).contains(r) {
                old(self).rights_list(l)
            } else {
                old(self).rights_list(l).push(r)
            }),
            final(self).lefts_list(r) == (if old(self).lefts_list(r).contains(l) {
                old(self).lefts_list(r)
            } else {
                old(self).lefts_list(r).push(l)
            }),
            forall|x: u128| x != l ==> final(self).rights_list(x) == old(self).rights_list(x),
            forall|y: u128| y != r ==> final(self).lefts_list(y) == old(self).lefts_list(y),
    {
        let ghost s = self.rows();
        self.push_row(l, r, false);
        side_add(&mut self.left_index, l, r);
        side_add(&mut self.right_index, r, l);
        proof {
            let s2 = self.rows();
            assert forall|x: u128, y: u128| linked(s2, x, y) <==> linked(s, x, y) || (x == l && y == r) by {
                assert(s2.drop_last() =~= s);
            }
        }
    }

    /// Unlinks post `l` from tag `r` when they are linked: appends an unlink
    /// row and drops the pair from the lists. Returns whether they were
    /// linked; otherwise nothing changes.
    pub fn unlink(&mut self, l: u128, r: u128) -> (was: bool)
        requires
            old(self).wf(),
        ensures
            final(self).wf(),
            was == linked(old(self).rows(), l, r),
            !linked(final(self).rows(), l, r),
            forall|x: u128, y: u128| !(x == l && y == r) ==> linked(final(self).rows(), x, y) == linked(old(self).rows(), x, y),
            final(self).rows() == (if was {
                old(self).rows().push((l, r, true))
            } else {
                old(self).rows()
            }),
            final(self).rights_list(l) == without_id(old(self).rights_list(l), r),
            final(self).lefts_list(r) == without_id(old(self).lefts_list(r), l),
            forall|x: u128| x != l ==> final(self).rights_list(x) == old(self).rights_list(x),
            forall|y: u128| y != r ==> final(self).lefts_list(y) == old(self).lefts_list(y),
    {
        let live = match self.left_index.get(&l) {
            Some(rs) => {
                let mut i: usize = 0;
                let mut found = false;
                while i < rs.len()
                    invariant
                        i <= rs@.len(),
                        !found ==> forall|j: int| 0 <= j < i ==> rs@[j] != r,
                        found ==> rs@.contains(r),
                    decreases rs@.len() - i,
                {
                    if rs[i] == r {
                        found = true;
                    }
                    i = i + 1;
                }
                found
            },
            None => false,
        };
        assert(live == side_has(self.left_index@, l, r));
        if !live {
            proof {
                self.lemma_lists();
                lemma_without_id(self.rights_list(l), r);
                lemma_without_id(self.lefts_list(r), l);
            }
            return false;
        }
        let ghost s = self.rows();
        self.push_row(l, r, true);
        side_remove(&mut self.left_index, l, r);
        side_remove(&mut self.right_index, r, l);
        proof {
            let s2 = self.rows();
            assert forall|x: u128, y: u128| linked(s2, x, y) <==> linked(s, x, y) && !(x == l && y == r) by {
                assert(s2.drop_last() =~= s);
            }
        }
        true
    }

    /// The tags linked to post `l`.
    pub fn rights_of(&self, l: u128) -> (out: Vec<u128>)
        requires
            self.wf(),
        ensures
            out@ == self.rights_list(l),
            distinct(out@),
            forall|r: u128| #[trigger] out@.contains(r) <==> linked(self.rows(), l, r),
    {
        proof {
            self.lemma_lists();
        }
        let out = match self.left_index.get(&l) {
            Some(v) => v.clone(),
            None => Vec::new(),
        };
        assert(out@ == self.rights_list(l));
        assert forall|r: u128| #[trigger] out@.contains(r) <==> linked(self.rows(), l, r) by {
            assert(self.rights_list(l).contains(r) <==> linked(self.rows(), l, r));
        }
        out
    }

    /// The posts linked to tag `r`.
    pub fn lefts_of(&self, r: u128) -> (out: Vec<u128>)
        requires
            self.wf(),
        ensures
            out@ == self.lefts_list(r),
            distinct(out@),
            forall|l: u128| #[trigger] out@.contains(l) <==> linked(self.rows(), l, r),
    {
        proof {
            self.lemma_lists();
        }
        let out = match self.right_index.get(&r) {
            Some(v) => v.clone(),
            None => Vec::new(),
        };
        assert(out@ == self.lefts_list(r));
        assert forall|l: u128| #[trigger] out@.contains(l) <==> linked(self.rows(), l, r) by {
            assert(self.lefts_list(r).contains(l) <==> linked(self.rows(), l, r));
        }
        out
    }

    /// The linked pairs as of the first `end` rows, each once, in the order
    /// in which each pair first appeared.
    pub fn pairs_prefix(&self, end: usize) -> (out: Vec<(u128, u128)>)
        requires
            self.wf(),
            end <= self.rows().len(),
        ensures
            out@ == live_pairs(self.rows().take(end as int), end as nat),
    {
        pairs_of(&self.lefts, &self.rights, &self.deleted, end)
    }

    /// The linked pairs, each once, in first-seen order.
    pub fn pairs(&self) -> (out: Vec<(u128, u128)>)
        requires
            self.wf(),
        ensures
            out@ == live_pairs(self.rows(), self.rows().len()),
    {
        let out = pairs_of(&self.lefts, &self.rights, &self.deleted, self.lefts.len());
        assert(self.rows().take(self.rows().len() as int) =~= self.rows());
        out
    }

    /// Rebuilds a junction from its stored rows: the posts, the tags and the
    /// unlink flags (a row with no flag stored links). The lists hold the
    /// linked pairs in the order in which each pair first appeared.
    pub fn from_rows(lefts: Vec<u128>, rights: Vec<u128>, deleted: Vec<bool>) -> (t: LinkTable)
        requires
            lefts@.len() == rights@.len(),
        ensures
            t.wf(),
            t.rows() == Seq::new(lefts@.len(), |i: int| (lefts@[i], rights@[i], i < deleted@.len() && deleted@[i])),
            forall|l: u128| #[trigger] t.rights_list(l) == rights_in(live_pairs(t.rows(), t.rows().len()), l),
            forall|r: u128| #[trigger] t.lefts_list(r) == lefts_in(live_pairs(t.rows(), t.rows().len()), r),
    {
        let n = lefts.len();
        let mut d: Vec<bool> = Vec::new();
        let mut i: usize = 0;
        while i < n
            invariant
                i <= n,
                n == lefts@.len(),
                d@.len() == i,
                forall|j: int| 0 <= j < i ==> d@[j] == (j < deleted@.len() && deleted@[j]),
            decreases n - i,
        {
            let f = if i < deleted.len() { deleted[i] } else { false };
            d.push(f);
            i = i + 1;
        }
        let pairs = pairs_of(&lefts, &rights, &d, n);
        let ghost rows = Seq::new(n as nat, |i: int| (lefts@[i], rights@[i], d@[i]));
        assert(rows.take(n as int) =~= rows);
        let ghost p = pairs@;
        proof {
            lemma_live_pairs_distinct(rows, n as nat);
        }
        let mut left_index: HashMap<u128, Vec<u128>> = HashMap::new();
        let mut right_index: HashMap<u128, Vec<u128>> = HashMap::new();
        let mut k: usize = 0;
        proof {
            assert(p.take(0) =~= Seq::<(u128, u128)>::empty());
        }
        while k < pairs.len()
            invariant
                k <= p.len(),
                pairs@ == p,
                forall|a: int, b: int| 0 <= a < b < p.len() ==> p[a] != p[b],
                side_wf(left_index@),
                side_wf(right_index@),
                forall|x: u128, y: u128| #[trigger] side_has(left_index@, x, y) <==> p.take(k as int).contains((x, y)),
                forall|x: u128, y: u128| #[trigger] side_has(right_index@, y, x) <==> p.take(k as int).contains((x, y)),
                forall|x: u128| #[trigger] side_list(left_index@, x) == rights_in(p.take(k as int), x),
                forall|y: u128| #[trigger] side_list(right_index@, y) == lefts_in(p.take(k as int), y),
            decreases p.len() - k,
        {
            let (l, r) = pairs[k];
            let ghost q = p.take(k as int);
            let ghost q2 = p.take(k + 1);
            proof {
                assert(q2 =~= q.push((l, r)));
                assert(q2.drop_last() =~= q);
                assert(!q.contains((l, r))) by {
                    if q.contains((l, r)) {
                        let m = choose|m: int| 0 <= m < q.len() && q[m] == (l, r);
                        assert(p[m] == p[k as int]);
                    }
                }
                assert(!side_has(left_index@, l, r));
                assert(!side_has(right_index@, r, l));
            }
            side_add(&mut left_index, l, r);
            side_add(&mut right_index, r, l);
            proof {
                assert forall|x: u128, y: u128| #[trigger] side_has(left_index@, x, y) <==> q2.contains((x, y)) by {
                    assert(q2.contains((x, y)) <==> q.contains((x, y)) || (x == l && y == r)) by {
                        if q2.contains((x, y)) {
                            let m = choose|m: int| 0 <= m < q2.len() && q2[m] == (x, y);
                            if m < q.len() {
                                assert(q[m] == (x, y));
                            }
                        }
                        if q.contains((x, y)) {
                            let m = choose|m: int| 0 <= m < q.len() && q[m] == (x, y);
                            assert(q2[m] == (x, y));
                        }
                        assert(q2[q.len() as int] == (l, r));
                    }
                }
                assert forall|x: u128, y: u128| #[trigger] side_has(right_index@, y, x) <==> q2.contains((x, y)) by {
                    assert(q2.contains((x, y)) <==> q.contains((x, y)) || (x == l && y == r)) by {
                        if q2.contains((x, y)) {
                            let m = choose|m: int| 0 <= m < q2.len() && q2[m] == (x, y);
                            if m < q.len() {
                                assert(q[m] == (x, y));
                            }
                        }
                        if q.contains((x, y)) {
                            let m = choose|m: int| 0 <= m < q.len() && q[m] == (x, y);
                            assert(q2[m] == (x, y));
                        }
                        assert(q2[q.len() as int] == (l, r));
                    }
                }
                assert forall|x: u128| #[trigger] side_list(left_index@, x) == rights_in(q2, x) by {
                    assert(rights_in(q2, x) == (if x == l { rights_in(q, x).push(r) } else { rights_in(q, x) }));
                }
                assert forall|y: u128| #[trigger] side_list(right_index@, y) == lefts_in(q2, y) by {
                    assert(lefts_in(q2, y) == (if y == r { lefts_in(q, y).push(l) } else { lefts_in(q, y) }));
                }
            }
            k = k + 1;
        }
        let t = LinkTable { lefts, rights, deleted: d, left_index, right_index };
        proof {
            assert(t.rows() =~= rows);
            assert(p.take(p.len() as int) =~= p);
            assert forall|l: u128, r: u128| #[trigger] side_has(t.left_index@, l, r) <==> linked(t.rows(), l, r) by {
                lemma_live_pairs_are_linked(rows, l, r);
            }
            assert forall|l: u128, r: u128| #[trigger] side_has(t.right_index@, r, l) <==> linked(t.rows(), l, r) by {
                lemma_live_pairs_are_linked(rows, l, r);
            }
        }
        t
    }

    /// Row `i` of the log: its post, its tag and whether it unlinks.
    pub fn row(&self, i: usize) -> (r: (u128, u128, bool))
        requires
            self.wf(),
            i < self.rows().len(),
        ensures
            r == self.rows()[i as int],
    {
        (self.lefts[i], self.rights[i], self.deleted[i])
    }

    /// The tags linked to post `l` as of the first `end` rows, in the order
    /// in which each pair first appeared.
    pub fn rights_at(&self, end: usize, l: u128) -> (out: Vec<u128>)
        requires
            self.wf(),
            end <= self.rows().len(),
        ensures
            out@ == rights_in(live_pairs(self.rows().take(end as int), end as nat), l),
    {
        let pairs = self.pairs_prefix(end);
        let ghost p = pairs@;
        let mut out: Vec<u128> = Vec::new();
        let mut i: usize = 0;
        while i < pairs.len()
            invariant
                i <= p.len(),
                pairs@ == p,
                out@ == rights_in(p.take(i as int), l),
            decreases p.len() - i,
        {
            proof {
                assert(p.take(i + 1).drop_last() =~= p.take(i as int));
            }
            let (a, b) = pairs[i];
            if a == l {
                out.push(b);
            }
            i = i + 1;
        }
        assert(p.take(p.len() as int) =~= p);
        out
    }

    /// Unlinks post `l` from every tag it is linked to, in list order.
    pub fn unlink_all_left(&mut self, l: u128)
        requires
            old(self).wf(),
        ensures
            final(self).wf(),
            final(self).rows() == old(self).rows() + Seq::new(
                old(self).rights_list(l).len(),
                |k: int| (l, old(self).rights_list(l)[k], true),
            ),
            forall|r: u128| !linked(#[trigger] final(self).rows(), l, r),
            forall|x: u128, y: u128| x != l ==> linked(final(self).rows(), x, y) == linked(old(self).rows(), x, y),
    {
        let targets = self.rights_of(l);
        let ghost t = targets@;
        let ghost s0 = self.rows();
        proof {
            assert(s0 + Seq::new(0, |j: int| (l, t[j], true)) =~= s0);
            assert(t.skip(0) =~= t);
            assert forall|j: int| 0 <= j < t.len() implies linked(s0, l, t[j]) by {
                assert(t.contains(t[j]));
            }
        }
        let mut k: usize = 0;
        while k < targets.len()
            invariant
                self.wf(),
                targets@ == t,
                distinct(t),
                forall|r: u128| t.contains(r) <==> linked(s0, l, r),
                k <= t.len(),
                self.rows() == s0 + Seq::new(k as nat, |j: int| (l, t[j], true)),
                forall|j: int| k <= j < t.len() ==> linked(self.rows(), l, #[trigger] t[j]),
                forall|r: u128| !t.take(k as int).contains(r) && !t.skip(k as int).contains(r) ==> !linked(self.rows(), l, r),
                forall|j: int| 0 <= j < k ==> !linked(self.rows(), l, #[trigger] t[j]),
                forall|x: u128, y: u128| x != l ==> linked(self.rows(), x, y) == linked(s0, x, y),
            decreases t.len() - k,
        {
            let r = targets[k];
            let ghost before = self.rows();
            assert(t[k as int] == r);
            let was = self.unlink(l, r);
            proof {
                assert(was);
                assert(self.rows() =~= s0 + Seq::new((k + 1) as nat, |j: int| (l, t[j], true)));
                assert forall|j: int| k + 1 <= j < t.len() implies linked(self.rows(), l, #[trigger] t[j]) by {
                    assert(t[j] != t[k as int]);
                }
                assert forall|j: int| 0 <= j < k + 1 implies !linked(self.rows(), l, #[trigger] t[j]) by {
                    if j < k {
                        assert(t[j] != t[k as int]);
                    }
                }
                assert forall|x: u128| !t.take(k + 1).contains(x) && !t.skip(k + 1).contains(x) implies !linked(self.rows(), l, x) by {
                    if x != r {
                        if t.take(k as int).contains(x) {
                            let m = choose|m: int| 0 <= m < k && t.take(k as int)[m] == x;
                            assert(t.take(k + 1)[m] == x);
                        }
                        if t.skip(k as int).contains(x) {
                            let m = choose|m: int| 0 <= m < t.len() - k && t.skip(k as int)[m] == x;
                            if m == 0 {
                                assert(t[k as int] == x);
                            } else {
                                assert(t.skip(k + 1)[m - 1] == x);
                            }
                        }
                    }
                }
            }
            k = k + 1;
        }
        proof {
            assert forall|r: u128| !linked(#[trigger] self.rows(), l, r) by {
                if t.contains(r) {
                    let j = choose|j: int| 0 <= j < t.len() && t[j] == r;
                }
                assert(t.skip(t.len() as int) =~= Seq::<u128>::empty());
                assert(t.take(t.len() as int) =~= t);
            }
        }
    }

    /// Unlinks tag `r` from every post it is linked to, in list order.
    pub fn unlink_all_right(&mut self, r: u128)
        requires
            old(self).wf(),
        ensures
            final(self).wf(),
            final(self).rows() == old(self).rows() + Seq::new(
                old(self).lefts_list(r).len(),
                |k: int| (old(self).lefts_list(r)[k], r, true),
            ),
            forall|l: u128| !linked(#[trigger] final(self).rows(), l, r),
            forall|x: u128, y: u128| y != r ==> linked(final(self).rows(), x, y) == linked(old(self).rows(), x, y),
    {
        let targets = self.lefts_of(r);
        let ghost t = targets@;
        let ghost s0 = self.rows();
        proof {
            assert(s0 + Seq::new(0, |j: int| (t[j], r, true)) =~= s0);
            assert(t.skip(0) =~= t);
            assert forall|j: int| 0 <= j < t.len() implies linked(s0, t[j], r) by {
                assert(t.contains(t[j]));
            }
        }
        let mut k: usize = 0;
        while k < targets.len()
            invariant
                self.wf(),
                targets@ == t,
                distinct(t),
                forall|l: u128| t.contains(l) <==> linked(s0, l, r),
                k <= t.len(),
                self.rows() == s0 + Seq::new(k as nat, |j: int| (t[j], r, true)),
                forall|j: int| k <= j < t.len() ==> linked(self.rows(), #[trigger] t[j], r),
                forall|l: u128| !t.take(k as int).contains(l) && !t.skip(k as int).contains(l) ==> !linked(self.rows(), l, r),
                forall|j: int| 0 <= j < k ==> !linked(self.rows(), #[trigger] t[j], r),
                forall|x: u128, y: u128| y != r ==> linked(self.rows(), x, y) == linked(s0, x, y),
            decreases t.len() - k,
        {
            let l = targets[k];
            assert(t[k as int] == l);
            let was = self.unlink(l, r);
            proof {
                assert(was);
                assert(self.rows() =~= s0 + Seq::new((k + 1) as nat, |j: int| (t[j], r, true)));
                assert forall|j: int| k + 1 <= j < t.len() implies linked(self.rows(), #[trigger] t[j], r) by {
                    assert(t[j] != t[k as int]);
                }
                assert forall|j: int| 0 <= j < k + 1 implies !linked(self.rows(), #[trigger] t[j], r) by {
                    if j < k {
                        assert(t[j] != t[k as int]);
                    }
                }
                assert forall|x: u128| !t.take(k + 1).contains(x) && !t.skip(k + 1).contains(x) implies !linked(self.rows(), x, r) by {
                    if x != l {
                        if t.take(k as int).contains(x) {
                            let m = choose|m: int| 0 <= m < k && t.take(k as int)[m] == x;
                            assert(t.take(k + 1)[m] == x);
                        }
                        if t.skip(k as int).contains(x) {
                            let m = choose|m: int| 0 <= m < t.len() - k && t.skip(k as int)[m] == x;
                            if m == 0 {
                                assert(t[k as int] == x);
                            } else {
                                assert(t.skip(k + 1)[m - 1] == x);
                            }
                        }
                    }
                }
            }
            k = k + 1;
        }
        proof {
            assert forall|l: u128| !linked(#[trigger] self.rows(), l, r) by {
                if t.contains(l) {
                    let j = choose|j: int| 0 <= j < t.len() && t[j] == l;
                }
                assert(t.skip(t.len() as int) =~= Seq::<u128>::empty());
                assert(t.take(t.len() as int) =~= t);
            }
        }
    }
}


/// `b` is what `LinkTable::link(l, r)` makes of `a`, as its contract states.
pub open spec fn link_effect(a: LinkTable, b: LinkTable, l: u128, r: u128) -> bool {
    &&& b.wf()
    &&& b.rows() == a.rows().push((l, r, false))
    &&& b.rights_list(l) == (if a.rights_list(l).contains(r) { a.rights_list(l) } else { a.rights_list(l).push(r) })
    &&& b.lefts_list(r) == (if a.lefts_list(r).contains(l) { a.lefts_list(r) } else { a.lefts_list(r).push(l) })
    &&& forall|x: u128| x != l ==> b.rights_list(x) == a.rights_list(x)
    &&& forall|y: u128| y != r ==> b.lefts_list(y) == a.lefts_list(y)
}

/// `b` is what `LinkTable::unlink(l, r)` makes of `a`, returning `was`, as
/// its contract states.
pub open spec fn unlink_effect(a: LinkTable, b: LinkTable, l: u128, r: u128, was: bool) -> bool {
    &&& b.wf()
    &&& was == linked(a.rows(), l, r)
    &&& b.rows() == (if was { a.rows().push((l, r, true)) } else { a.rows() })
    &&& b.rights_list(l) == without_id(a.rights_list(l), r)
    &&& b.lefts_list(r) == without_id(a.lefts_list(r), l)
    &&& forall|x: u128| x != l ==> b.rights_list(x) == a.rights_list(x)
    &&& forall|y: u128| y != r ==> b.lefts_list(y) == a.lefts_list(y)
}

/// When two logs agree on every pair's state and the shorter is a prefix of
/// the longer, they list the same pairs up to the prefix's end.
proof fn lemma_live_pairs_extend(s1: Seq<(u128, u128, bool)>, s2: Seq<(u128, u128, bool)>, k: nat)
    requires
        k <= s1.len() <= s2.len(),
        s2.take(s1.len() as int) == s1,
        forall|x: u128, y: u128| #[trigger] linked(s2, x, y) == linked(s1, x, y),
    ensures
        live_pairs(s2, k) == live_pairs(s1, k),
    decreases k,
{
    if k > 0 {
        lemma_live_pairs_extend(s1, s2, (k - 1) as nat);
        let i = k - 1;
        assert(s2[i] == s1[i]);
        assert forall|j: int| 0 <= j < i implies #[trigger] s2[j] == s1[j] by {
            assert(s2.take(s1.len() as int)[j] == s2[j]);
        }
        assert(first_seen(s2, i) == first_seen(s1, i));
        assert(linked(s2, s2[i].0, s2[i].1) == linked(s1, s1[i].0, s1[i].1));
    }
}

/// Rows that only repeat a pair recorded before them add no listed pair.
proof fn lemma_live_pairs_tail_seen(s: Seq<(u128, u128, bool)>, k: nat, l: u128, r: u128)
    requires
        k < s.len(),
        exists|j: int| 0 <= j < k && s[j].0 == l && s[j].1 == r,
        forall|i: int| k <= i < s.len() ==> (#[trigger] s[i]).0 == l && s[i].1 == r,
    ensures
        live_pairs(s, s.len()) == live_pairs(s, k),
{
    let j = choose|j: int| 0 <= j < k && s[j].0 == l && s[j].1 == r;
    assert forall|i: int| k <= i <= s.len() - 1 implies !first_seen(s, i) by {
        assert(s[j].0 == s[i].0 && s[j].1 == s[i].1);
    }
    lemma_live_pairs_upto(s, k, (s.len() - 1) as nat);
}

/// Between `k` and `n`, rows that are not first to record their pair add
/// nothing to the listed pairs.
proof fn lemma_live_pairs_upto(s: Seq<(u128, u128, bool)>, k: nat, n: nat)
    requires
        k <= n < s.len(),
        forall|i: int| k <= i <= n ==> !first_seen(s, i),
    ensures
        live_pairs(s, (n + 1) as nat) == live_pairs(s, k),
    decreases n - k,
{
    if n > k {
        lemma_live_pairs_upto(s, k, (n - 1) as nat);
    }
}

/// Linking a pair twice is linking it once: the second call adds a row and
/// changes no list and no pair; the pair is listed once on each side and
/// once among the pairs.
pub proof fn lemma_link_twice(a: LinkTable, b: LinkTable, c: LinkTable, l: u128, r: u128)
    requires
        a.wf(),
        link_effect(a, b, l, r),
        link_effect(b, c, l, r),
    ensures
        c.rows().len() == a.rows().len() + 2,
        forall|x: u128| #[trigger] c.rights_list(x) == b.rights_list(x),
        forall|y: u128| #[trigger] c.lefts_list(y) == b.lefts_list(y),
        live_pairs(c.rows(), c.rows().len()) == live_pairs(b.rows(), b.rows().len()),
        c.rights_list(l).contains(r) && distinct(c.rights_list(l)),
        c.lefts_list(r).contains(l) && distinct(c.lefts_list(r)),
        live_pairs(c.rows(), c.rows().len()).contains((l, r)),
        forall|p: int, q: int| 0 <= p < q < live_pairs(c.rows(), c.rows().len()).len()
            ==> live_pairs(c.rows(), c.rows().len())[p] != live_pairs(c.rows(), c.rows().len())[q],
{
    b.lemma_lists();
    c.lemma_lists();
    let sb = b.rows();
    let sc = c.rows();
    assert(b.rights_list(l).contains(r)) by {
        if !a.rights_list(l).contains(r) {
            assert(a.rights_list(l).push(r)[a.rights_list(l).len() as int] == r);
        }
    }
    assert(b.lefts_list(r).contains(l)) by {
        if !a.lefts_list(r).contains(l) {
            assert(a.lefts_list(r).push(l)[a.lefts_list(r).len() as int] == l);
        }
    }
    assert forall|x: u128| #[trigger] c.rights_list(x) == b.rights_list(x) by {}
    assert forall|y: u128| #[trigger] c.lefts_list(y) == b.lefts_list(y) by {}
    assert(sc.drop_last() =~= sb);
    assert forall|x: u128, y: u128| #[trigger] linked(sc, x, y) == linked(sb, x, y) by {
        assert(linked(sb, l, r));
    }
    assert(sc.take(sb.len() as int) =~= sb);
    lemma_live_pairs_extend(sb, sc, sb.len());
    assert(sc[sc.len() - 1] == (l, r, false));
    assert(sc[sc.len() - 2] == (l, r, false));
    lemma_live_pairs_tail_seen(sc, sb.len(), l, r);
    lemma_live_pairs_are_linked(sc, l, r);
    lemma_live_pairs_distinct(sc, sc.len());
}

/// Linking a pair that was not linked and then unlinking it gives back every
/// list and the listed pairs; the unlink reports the pair linked, and a
/// second unlink reports it unlinked and adds no row.
pub proof fn lemma_link_unlink(a: LinkTable, b: LinkTable, c: LinkTable, d: LinkTable, l: u128, r: u128,
    was: bool, again: bool)
    requires
        a.wf(),
        !linked(a.rows(), l, r),
        link_effect(a, b, l, r),
        unlink_effect(b, c, l, r, was),
        unlink_effect(c, d, l, r, again),
    ensures
        was,
        forall|x: u128| #[trigger] c.rights_list(x) == a.rights_list(x),
        forall|y: u128| #[trigger] c.lefts_list(y) == a.lefts_list(y),
        live_pairs(c.rows(), c.rows().len()) == live_pairs(a.rows(), a.rows().len()),
        !again,
        d.rows() == c.rows(),
{
    a.lemma_lists();
    b.lemma_lists();
    let sa = a.rows();
    let sb = b.rows();
    let sc = c.rows();
    assert(sb.drop_last() =~= sa);
    assert(linked(sb, l, r));
    assert(!a.rights_list(l).contains(r));
    assert(!a.lefts_list(r).contains(l));
    let ra = a.rights_list(l);
    let la = a.lefts_list(r);
    lemma_without_id_step(ra.push(r), r);
    assert(ra.push(r).drop_last() =~= ra);
    lemma_without_id(ra, r);
    lemma_without_id_step(la.push(l), l);
    assert(la.push(l).drop_last() =~= la);
    lemma_without_id(la, l);
    assert forall|x: u128| #[trigger] c.rights_list(x) == a.rights_list(x) by {}
    assert forall|y: u128| #[trigger] c.lefts_list(y) == a.lefts_list(y) by {}
    assert(sc.drop_last() =~= sb);
    assert forall|x: u128, y: u128| #[trigger] linked(sc, x, y) == linked(sa, x, y) by {
        if !(x == l && y == r) {
            assert(linked(sb, x, y) == linked(sa, x, y));
        }
    }
    assert(sc.take(sa.len() as int) =~= sa);
    lemma_live_pairs_extend(sa, sc, sa.len());
    assert(sc.len() == sa.len() + 2);
    let n = sa.len() as int;
    assert(!first_seen(sc, n + 1)) by {
        assert(sc[n].0 == sc[n + 1].0 && sc[n].1 == sc[n + 1].1);
    }
    assert(!linked(sc, l, r));
    assert(live_pairs(sc, (sa.len() + 1) as nat) == live_pairs(sc, sa.len()));
    assert(live_pairs(sc, (sa.len() + 2) as nat) == live_pairs(sc, (sa.len() + 1) as nat));
}

/// The three views of a junction agree: a pair is listed among the pairs
/// exactly when the post lists the tag and exactly when the tag lists the
/// post; the pairs are listed once each; the pairs as of a snapshot taken
/// now are the pairs.
pub proof fn lemma_link_views_agree(t: LinkTable)
    requires
        t.wf(),
    ensures
        forall|l: u128, r: u128| live_pairs(t.rows(), t.rows().len()).contains((l, r))
            <==> #[trigger] t.rights_list(l).contains(r),
        forall|l: u128, r: u128| #[trigger] t.rights_list(l).contains(r) <==> t.lefts_list(r).contains(l),
        forall|p: int, q: int| 0 <= p < q < live_pairs(t.rows(), t.rows().len()).len()
            ==> live_pairs(t.rows(), t.rows().len())[p] != live_pairs(t.rows(), t.rows().len())[q],
        live_pairs(t.rows().take(t.rows().len() as int), t.rows().len()) == live_pairs(t.rows(), t.rows().len()),
{
    t.lemma_lists();
    assert forall|l: u128, r: u128| live_pairs(t.rows(), t.rows().len()).contains((l, r))
        <==> #[trigger] t.rights_list(l).contains(r) by {
        lemma_live_pairs_are_linked(t.rows(), l, r);
    }
    assert forall|l: u128, r: u128| #[trigger] t.rights_list(l).contains(r) <==> t.lefts_list(r).contains(l) by {
        assert(t.rights_list(l).contains(r) <==> linked(t.rows(), l, r));
        assert(t.lefts_list(r).contains(l) <==> linked(t.rows(), l, r));
    }
    lemma_live_pairs_distinct(t.rows(), t.rows().len());
    assert(t.rows().take(t.rows().len() as int) =~= t.rows());
}


/// The stored body of a junction row: the post's id, then the tag's, each
/// as sixteen big-endian bytes.
pub open spec fn link_body_spec(l: u128, r: u128) -> Seq<u8> {
    be_bytes(l as int) + be_bytes(r as int)
}

/// What a junction body reads back as: the ids of its two halves; nothing
/// unless it has 32 bytes.
pub open spec fn link_decoded(b: Seq<u8>) -> Option<(u128, u128)> {
    if b.len() == 32 {
        Some((id_from_bytes(b.take(16)) as u128, id_from_bytes(b.skip(16)) as u128))
    } else {
        None
    }
}

/// The body of a junction row linking post `l` and tag `r`.
pub fn link_body(l: u128, r: u128) -> (b: Vec<u8>)
    ensures
        b@ == link_body_spec(l, r),
{
    let a = uuid_bytes_from_u128(l);
    let c = uuid_bytes_from_u128(r);
    let mut out: Vec<u8> = Vec::new();
    let mut i: usize = 0;
    while i < 16
        invariant
            i <= 16,
            a@.len() == 16,
            out@ == a@.take(i as int),
        decreases 16 - i,
    {
        out.push(a[i]);
        i = i + 1;
        assert(out@ =~= a@.take(i as int));
    }
    let mut j: usize = 0;
    while j < 16
        invariant
            j <= 16,
            a@.len() == 16,
            c@.len() == 16,
            out@ == a@ + c@.take(j as int),
        decreases 16 - j,
    {
        out.push(c[j]);
        j = j + 1;
        assert(out@ =~= a@ + c@.take(j as int));
    }
    assert(a@.take(16) =~= a@);
    assert(c@.take(16) =~= c@);
    out
}

/// Reads a junction body back: the pair of ids, when it has 32 bytes.
pub fn link_of_body(bytes: &Vec<u8>) -> (p: Option<(u128, u128)>)
    ensures
        p == link_decoded(bytes@),
{
    if bytes.len() != 32 {
        return None;
    }
    let mut a = [0u8; 16];
    let mut b = [0u8; 16];
    let mut i: usize = 0;
    while i < 16
        invariant
            i <= 16,
            bytes@.len() == 32,
            forall|j: int| 0 <= j < i ==> a@[j] == bytes@[j] && b@[j] == bytes@[16 + j],
        decreases 16 - i,
    {
        a[i] = bytes[i];
        b[i] = bytes[16 + i];
        i = i + 1;
    }
    assert(a@ =~= bytes@.take(16));
    assert(b@ =~= bytes@.skip(16));
    let l = id_from_be_bytes(&a);
    let r = id_from_be_bytes(&b);
    Some((l, r))
}

/// A junction body read back gives the pair it was written for.
pub proof fn lemma_link_body_roundtrip(l: u128, r: u128)
    ensures
        link_decoded(link_body_spec(l, r)) == Some((l, r)),
{
    let b = link_body_spec(l, r);
    assert(b.take(16) =~= be_bytes(l as int));
    assert(b.skip(16) =~= be_bytes(r as int));
    lemma_be_roundtrip(l);
    lemma_be_roundtrip(r);
}

} // verus!
