use vstd::prelude::*;
use crate::db::Database;
use crate::errors::TxError;
use crate::tx::{TxHandle, journal_upto};

verus! {

/// The view of journal entries: model names and row counts.
pub open spec fn entries_view(e: Seq<(String, u64)>) -> Seq<(Seq<char>, u64)> {
    Seq::new(e.len(), |i: int| (e[i].0@, e[i].1))
}

/// The entries of a transaction's journal, each row count as a `u64`.
pub open spec fn journal_entries(j: Seq<(Seq<char>, nat)>) -> Seq<(Seq<char>, u64)> {
    Seq::new(j.len(), |i: int| (j[i].0, j[i].1 as u64))
}

/// The JSON serde_json writes for journal entries.
pub uninterp spec fn journal_json(entries: Seq<(Seq<char>, u64)>) -> Seq<u8>;

/// The journal entries serde_json reads from `bytes`, if they parse as a
/// list of `[model, row count]` pairs.
pub uninterp spec fn journal_parsed(bytes: Seq<u8>) -> Option<Seq<(Seq<char>, u64)>>;

/// Serialises journal entries.
///
/// Calls `serde_json::to_vec` on the entries: writing strings and unsigned
/// numbers into a `Vec` cannot fail in its source, and the bytes are named
/// by the entries alone.
#[verifier::external_body]
fn journal_to_json(entries: &Vec<(String, u64)>) -> (out: Vec<u8>)
    ensures
        out@ == journal_json(entries_view(entries@)),
{
    serde_json::to_vec(entries).unwrap_or_default()
}

/// Parses journal entries.
///
/// Calls `serde_json::from_slice` for a list of `(String, u64)` pairs; the
/// outcome is named by the bytes alone.
#[verifier::external_body]
fn journal_from_json(bytes: &Vec<u8>) -> (out: Option<Vec<(String, u64)>>)
    ensures
        match out {
            Some(e) => journal_parsed(bytes@) == Some(entries_view(e@)),
            None => journal_parsed(bytes@) is None,
        },
{
    serde_json::from_slice(bytes.as_slice()).ok()
}

impl TxHandle {
    /// The journal record of a committing transaction: for each model it
    /// wrote, by name order, the model's name and row count, as JSON.
    pub fn journal_payload(&self, db: &Database) -> (r: Result<Vec<u8>, TxError>)
        requires
            self.inv(db),
        ensures
            r matches Ok(b) && b@ == journal_json(journal_entries(journal_upto(self, db, 5))),
    {
        let j = self.journal(db);
        let ghost js = journal_upto(self, db, 5);
        let mut entries: Vec<(String, u64)> = Vec::new();
        let mut i: usize = 0;
        while i < j.len()
            invariant
                i <= j@.len(),
                Seq::new(j@.len(), |k: int| (j@[k].0@, j@[k].1 as nat)) == js,
                entries_view(entries@) == journal_entries(js).take(i as int),
            decreases j@.len() - i,
        {
            let (name, n) = j[i];
            let ghost before = entries@;
            proof {
                assert(journal_entries(js).len() == j@.len());
                assert(entries_view(before).len() == journal_entries(js).take(i as int).len());
                assert(before.len() == i);
                assert(j@[i as int] == (name, n));
                assert(Seq::new(j@.len(), |k: int| (j@[k].0@, j@[k].1 as nat))[i as int] == (name@, n as nat));
                assert(js[i as int] == (name@, n as nat));
            }
            let s = String::from_str(name);
            entries.push((s, n as u64));
            proof {
                assert(entries@[i as int] == (s, n as u64));
                assert(entries_view(entries@) =~= entries_view(before).push((name@, n as u64)));
                assert(journal_entries(js)[i as int] == (name@, n as u64));
            }
            i = i + 1;
            assert(entries_view(entries@) =~= journal_entries(js).take(i as int));
        }
        assert(journal_entries(js).take(j@.len() as int) =~= journal_entries(js));
        Ok(journal_to_json(&entries))
    }
}

/// The row counts the transaction journal last committed, read from its
/// last record: the parsed entries, or none when the record does not parse.
pub fn committed_counts(bytes: &Vec<u8>) -> (out: Vec<(String, u64)>)
    ensures
        entries_view(out@) == (match journal_parsed(bytes@) {
            Some(e) => e,
            None => Seq::empty(),
        }),
{
    match journal_from_json(bytes) {
        Some(e) => e,
        None => {
            let v: Vec<(String, u64)> = Vec::new();
            assert(entries_view(v@) =~= Seq::<(Seq<char>, u64)>::empty());
            v
        },
    }
}

} // verus!
