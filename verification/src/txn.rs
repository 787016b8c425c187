use vstd::prelude::*;
use crate::keys::{ws_key, ws_key_spec};
use vstd::utf8::encode_utf8;

verus! {

/// The unique keys a transaction has claimed so far, as
/// `(model, field, key)` triples.
pub struct StagedKeys {
    entries: Vec<(&'static str, &'static str, String)>,
}

impl StagedKeys {
    /// The claimed triples.
    pub closed spec fn has(&self, model: Seq<char>, field: Seq<char>, key: Seq<char>) -> bool {
        exists|i: int| 0 <= i < self.entries@.len() && self.entries@[i].0@ == model
            && self.entries@[i].1@ == field && self.entries@[i].2@ == key
    }

    pub closed spec fn len_spec(&self) -> nat {
        self.entries@.len()
    }

    pub closed spec fn entry(&self, i: int) -> (Seq<char>, Seq<char>, Seq<char>) {
        (self.entries@[i].0@, self.entries@[i].1@, self.entries@[i].2@)
    }

    /// The write-set key of claimed triple `i`: `["u", model, field, key]`
    /// as UTF-8 bytes.
    pub open spec fn entry_key(&self, i: int) -> Seq<u8> {
        let e = self.entry(i);
        ws_key_spec(seq![seq![117u8], encode_utf8(e.0), encode_utf8(e.1), encode_utf8(e.2)])
    }

    pub fn new() -> (s: Self)
        ensures
            forall|m: Seq<char>, f: Seq<char>, k: Seq<char>| !s.has(m, f, k),
            s.len_spec() == 0,
    {
        StagedKeys { entries: Vec::new() }
    }

    /// Whether `(model, field, key)` was claimed.
    pub fn contains(&self, model: &str, field: &str, key: &str) -> (b: bool)
        ensures
            b == self.has(model@, field@, key@),
    {
        let mut i: usize = 0;
        while i < self.entries.len()
            invariant
                i <= self.entries@.len(),
                forall|j: int| 0 <= j < i ==> !(self.entries@[j].0@ == model@ && self.entries@[j].1@ == field@
                    && self.entries@[j].2@ == key@),
            decreases self.entries@.len() - i,
        {
            let e = &self.entries[i];
            if str_eq(e.0, model) && str_eq(e.1, field) && str_eq(e.2.as_str(), key) {
                return true;
            }
            i = i + 1;
        }
        false
    }

    /// Claims `(model, field, key)`.
    pub fn insert(&mut self, model: &'static str, field: &'static str, key: String)
        ensures
            forall|m: Seq<char>, f: Seq<char>, k: Seq<char>| #[trigger] final(self).has(m, f, k) <==>
                old(self).has(m, f, k) || (m == model@ && f == field@ && k == key@),
    {
        let ghost k = key@;
        if !self.contains(model, field, key.as_str()) {
            let ghost before = self.entries@;
            self.entries.push((model, field, key));
            proof {
                assert forall|m: Seq<char>, f: Seq<char>, kk: Seq<char>| #[trigger] self.has(m, f, kk) <==>
                    old(self).has(m, f, kk) || (m == model@ && f == field@ && kk == k) by {
                    if self.has(m, f, kk) {
                        let i = choose|i: int| 0 <= i < self.entries@.len() && self.entries@[i].0@ == m
                            && self.entries@[i].1@ == f && self.entries@[i].2@ == kk;
                        if i < before.len() {
                            assert(before[i] == self.entries@[i]);
                        }
                    }
                    if old(self).has(m, f, kk) {
                        let i = choose|i: int| 0 <= i < before.len() && before[i].0@ == m
                            && before[i].1@ == f && before[i].2@ == kk;
                        assert(self.entries@[i] == before[i]);
                    }
                    if m == model@ && f == field@ && kk == k {
                        assert(self.entries@[before.len() as int].2@ == k);
                    }
                }
            }
        }
    }

    /// The write-set keys of the claimed triples: `["u", model, field, key]`.
    pub fn write_set_keys(&self) -> (out: Vec<Vec<u8>>)
        ensures
            out@.len() == self.len_spec(),
            forall|i: int| 0 <= i < out@.len() ==> (#[trigger] out@[i])@ == self.entry_key(i),
    {
        let mut out: Vec<Vec<u8>> = Vec::new();
        let mut i: usize = 0;
        while i < self.entries.len()
            invariant
                i <= self.entries@.len(),
                out@.len() == i,
                forall|j: int| 0 <= j < i ==> (#[trigger] out@[j])@ == self.entry_key(j),
            decreases self.entries@.len() - i,
        {
            let e = &self.entries[i];
            let mut parts: Vec<Vec<u8>> = Vec::new();
            let mut u: Vec<u8> = Vec::new();
            u.push(117u8);
            parts.push(u);
            parts.push(str_bytes(e.0));
            parts.push(str_bytes(e.1));
            parts.push(str_bytes(e.2.as_str()));
            let k = ws_key(&parts);
            proof {
                assert(Seq::new(parts@.len(), |j: int| parts@[j]@) =~= seq![
                    seq![117u8], encode_utf8(self.entries@[i as int].0@),
                    encode_utf8(self.entries@[i as int].1@),
                    encode_utf8(self.entries@[i as int].2@)]);
            }
            out.push(k);
            i = i + 1;
        }
        out
    }
}

/// Character-wise equality of two strings.
pub fn str_eq(a: &str, b: &str) -> (r: bool)
    ensures
        r == (a@ == b@),
{
    let n = a.unicode_len();
    let m = b.unicode_len();
    if n != m {
        return false;
    }
    let mut i: usize = 0;
    while i < n
        invariant
            n == a@.len(),
            m == b@.len(),
            n == m,
            i <= n,
            forall|j: int| 0 <= j < i ==> a@[j] == b@[j],
        decreases n - i,
    {
        if a.get_char(i) != b.get_char(i) {
            return false;
        }
        i = i + 1;
    }
    assert(a@ =~= b@);
    true
}

/// The UTF-8 bytes of a string.
pub fn str_bytes(s: &str) -> (out: Vec<u8>)
    ensures
        out@ == encode_utf8(s@),
{
    let b = s.as_bytes();
    let mut out: Vec<u8> = Vec::new();
    let mut i: usize = 0;
    while i < b.len()
        invariant
            i <= b@.len(),
            b@ == encode_utf8(s@),
            out@ == b@.take(i as int),
        decreases b@.len() - i,
    {
        out.push(b[i]);
        i = i + 1;
        assert(out@ =~= b@.take(i as int));
    }
    assert(b@.take(b@.len() as int) =~= b@);
    out
}

} // verus!
