use vstd::prelude::*;
use vstd::hash_map::StringHashMap;
use std::collections::HashSet;
use vstd::std_specs::iter::IteratorSpec;

verus! {

/// A secondary index from an encoded key to the set of ids of the records
/// holding it. Keys whose id set would be empty are absent.
pub struct KeyIndex {
    m: StringHashMap<HashSet<u128>>,
}

/// `v` holds `x` (as a set of ids).
pub open spec fn holds(v: Seq<u128>, x: u128) -> bool {
    v.contains(x)
}

/// `v` lists each id at most once.
pub open spec fn distinct(v: Seq<u128>) -> bool {
    forall|i: int, j: int| 0 <= i < j < v.len() ==> v[i] != v[j]
}

pub proof fn lemma_push_contains_u128(s: Seq<u128>, v: u128)
    ensures
        forall|x: u128| #[trigger] s.push(v).contains(x) <==> s.contains(x) || x == v,
{
    assert forall|x: u128| #[trigger] s.push(v).contains(x) <==> s.contains(x) || x == v by {
        if s.push(v).contains(x) {
            let k = choose|k: int| 0 <= k < s.push(v).len() && s.push(v)[k] == x;
            if k < s.len() {
                assert(s[k] == x);
            }
        }
        if s.contains(x) {
            let k = choose|k: int| 0 <= k < s.len() && s[k] == x;
            assert(s.push(v)[k] == x);
        }
        if x == v {
            assert(s.push(v)[s.len() as int] == x);
        }
    }
}

/// The ids of a set, each once, in the order the set hands them out.
fn set_ids(s: &HashSet<u128>) -> (out: Vec<u128>)
    ensures
        distinct(out@),
        forall|x: u128| #[trigger] out@.contains(x) <==> s@.contains(x),
{
    let mut out: Vec<u128> = Vec::new();
    let ghost all = IteratorSpec::remaining(&s.iter());
    proof {
        assert(all.unref().to_set() == s@);
        assert(all.no_duplicates());
    }
    for x in it: s.iter()
        invariant
            all == it.seq(),
            out@.len() == it.index(),
            forall|i: int| 0 <= i < out@.len() ==> out@[i] == *all[i],
    {
        out.push(*x);
    }
    proof {
        assert(out@ =~= all.unref());
        assert forall|i: int, j: int| 0 <= i < j < out@.len() implies out@[i] != out@[j] by {
            assert(all[i] != all[j]);
        }
        assert forall|x: u128| #[trigger] out@.contains(x) <==> s@.contains(x) by {
            assert(out@.to_set().contains(x) <==> out@.contains(x));
        }
    }
    out
}

/// A copy of a set.
fn set_copy(s: &HashSet<u128>) -> (c: HashSet<u128>)
    ensures
        c@ == s@,
{
    let ids = set_ids(s);
    let mut c: HashSet<u128> = HashSet::new();
    let mut i: usize = 0;
    while i < ids.len()
        invariant
            i <= ids@.len(),
            forall|x: u128| #[trigger] ids@.contains(x) <==> s@.contains(x),
            forall|x: u128| #[trigger] c@.contains(x) <==> ids@.take(i as int).contains(x),
        decreases ids@.len() - i,
    {
        proof {
            assert(ids@.take(i + 1) =~= ids@.take(i as int).push(ids@[i as int]));
            lemma_push_contains_u128(ids@.take(i as int), ids@[i as int]);
        }
        c.insert(ids[i]);
        i = i + 1;
    }
    assert(ids@.take(ids@.len() as int) =~= ids@);
    assert(c@ =~= s@);
    c
}

impl KeyIndex {
    /// The index as a relation: key `k` maps to id `x`.
    pub closed spec fn has(&self, k: Seq<char>, x: u128) -> bool {
        self.m@.contains_key(k) && self.m@[k]@.contains(x)
    }

    /// Some id is stored under key `k`.
    pub closed spec fn has_key(&self, k: Seq<char>) -> bool {
        self.m@.contains_key(k)
    }

    pub closed spec fn wf(&self) -> bool {
        forall|k: Seq<char>| #[trigger] self.m@.contains_key(k) ==> !self.m@[k]@.is_empty()
    }

    pub proof fn lemma_has_key(&self, k: Seq<char>)
        requires
            self.wf(),
        ensures
            self.has_key(k) <==> exists|x: u128| self.has(k, x),
    {
        if self.has_key(k) {
            let s = self.m@[k]@;
            assert(!s.is_empty());
            if forall|x: u128| !s.contains(x) {
                assert(s =~= Set::<u128>::empty());
            }
            let x = choose|x: u128| s.contains(x);
            assert(self.has(k, x));
        }
    }

    /// An empty index.
    pub fn new() -> (r: Self)
        ensures
            r.wf(),
            forall|k: Seq<char>, x: u128| !r.has(k, x),
            forall|k: Seq<char>| !r.has_key(k),
    {
        KeyIndex { m: StringHashMap::new() }
    }

    /// Empties the index.
    pub fn clear(&mut self)
        ensures
            final(self).wf(),
            forall|k: Seq<char>, x: u128| !final(self).has(k, x),
    {
        self.m.clear();
    }

    /// The ids stored under `k`, each once.
    pub fn ids(&self, k: &str) -> (out: Vec<u128>)
        requires
            self.wf(),
        ensures
            distinct(out@),
            forall|x: u128| #[trigger] out@.contains(x) <==> self.has(k@, x),
    {
        match self.m.get(k) {
            Some(s) => set_ids(s),
            None => Vec::new(),
        }
    }

    /// Some id is stored under `k` (the uniqueness test of an insert).
    pub fn any(&self, k: &str) -> (b: bool)
        requires
            self.wf(),
        ensures
            b == exists|x: u128| self.has(k@, x),
    {
        proof {
            self.lemma_has_key(k@);
        }
        self.m.contains_key(k)
    }

    /// An id other than `id` is stored under `k` (the uniqueness test of an
    /// update).
    pub fn any_other(&self, k: &str, id: u128) -> (b: bool)
        requires
            self.wf(),
        ensures
            b == exists|x: u128| self.has(k@, x) && x != id,
    {
        let v = self.ids(k);
        let mut i: usize = 0;
        while i < v.len()
            invariant
                i <= v@.len(),
                forall|x: u128| #[trigger] v@.contains(x) <==> self.has(k@, x),
                forall|j: int| 0 <= j < i ==> v@[j] == id,
            decreases v@.len() - i,
        {
            if v[i] != id {
                assert(v@.contains(v@[i as int]));
                return true;
            }
            i = i + 1;
        }
        proof {
            assert forall|x: u128| self.has(k@, x) implies x == id by {
                assert(v@.contains(x));
                let j = choose|j: int| 0 <= j < v@.len() && v@[j] == x;
            }
        }
        false
    }

    /// `id` is stored under `k`.
    pub fn contains(&self, k: &str, id: u128) -> (b: bool)
        requires
            self.wf(),
        ensures
            b == self.has(k@, id),
    {
        match self.m.get(k) {
            Some(s) => s.contains(&id),
            None => false,
        }
    }

    /// Stores `id` under `k`.
    pub fn add(&mut self, k: &str, id: u128)
        requires
            old(self).wf(),
        ensures
            final(self).wf(),
            forall|kk: Seq<char>, x: u128| #[trigger] final(self).has(kk, x) <==> old(self).has(kk, x) || (kk == k@ && x == id),
            forall|kk: Seq<char>| #[trigger] final(self).has_key(kk) <==> old(self).has_key(kk) || kk == k@,
    {
        let mut s = match self.m.get(k) {
            Some(s) => set_copy(s),
            None => HashSet::new(),
        };
        s.insert(id);
        proof {
            assert(s@.contains(id));
            if s@.is_empty() {
                assert(s@ =~= Set::<u128>::empty());
            }
        }
        self.m.insert(String::from_str(k), s);
    }

    /// Removes `id` from under `k`; the key goes once no id remains.
    pub fn remove(&mut self, k: &str, id: u128)
        requires
            old(self).wf(),
        ensures
            final(self).wf(),
            forall|kk: Seq<char>, x: u128| #[trigger] final(self).has(kk, x) <==> old(self).has(kk, x) && !(kk == k@ && x == id),
    {
        match self.m.get(k) {
            Some(s) => {
                let mut c = set_copy(s);
                c.remove(&id);
                if c.is_empty() {
                    self.m.remove(k);
                    proof {
                        assert forall|x: u128| !old(self).has(k@, x) || x == id by {
                            if old(self).has(k@, x) && x != id {
                                assert(c@.contains(x));
                            }
                        }
                    }
                } else {
                    self.m.insert(String::from_str(k), c);
                }
            },
            None => {},
        }
    }
}

} // verus!
