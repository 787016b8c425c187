use vstd::prelude::*;
use crate::concurrent::DatabaseSnapshot;
use crate::db::Database;
use crate::keys::id_key_spec;
use crate::links::{linked, live_pairs, rights_in};
use crate::queries::found;
use crate::records::Post;
use crate::versions::LogView;

verus! {

/// The rows of the live records among `ids`, in order, for those that are.
pub open spec fn live_rows_of(log: LogView, ids: Seq<u128>) -> Seq<usize>
    decreases ids.len(),
{
    if ids.len() == 0 {
        Seq::empty()
    } else if log.is_live(ids.last()) {
        live_rows_of(log, ids.drop_last()).push(log.latest_row(ids.last())->0 as usize)
    } else {
        live_rows_of(log, ids.drop_last())
    }
}

/// The rows the records among `ids` have at a snapshot taken at row count
/// `w`, in order, for those that have one that is no tombstone.
pub open spec fn rows_at_of(log: LogView, w: nat, ids: Seq<u128>) -> Seq<usize>
    decreases ids.len(),
{
    if ids.len() == 0 {
        Seq::empty()
    } else if log.row_at(w, ids.last()) matches Some(r) && !log.deleted[r as int] {
        rows_at_of(log, w, ids.drop_last()).push(log.row_at(w, ids.last())->0 as usize)
    } else {
        rows_at_of(log, w, ids.drop_last())
    }
}

impl Database {
    /// Links post `left` to tag `right` (neither is checked).
    pub fn link_post_tag(&mut self, left: u128, right: u128)
        requires
            old(self).post_tag_link.wf(),
        ensures
            final(self).post_tag_link.wf(),
            final(self).post_tag_link.rows() == old(self).post_tag_link.rows().push((left, right, false)),
            linked(final(self).post_tag_link.rows(), left, right),
            forall|x: u128, y: u128| !(x == left && y == right) ==> linked(final(self).post_tag_link.rows(), x, y)
                == linked(old(self).post_tag_link.rows(), x, y),
            final(self).user == old(self).user && final(self).post == old(self).post && final(self).tag == old(self).tag
                && final(self).metric == old(self).metric && final(self).doc == old(self).doc,
    {
        self.post_tag_link.link(left, right);
    }

    /// Unlinks post `left` from tag `right`; returns whether they were
    /// linked (else nothing changes).
    pub fn unlink_post_tag(&mut self, left: u128, right: u128) -> (was: bool)
        requires
            old(self).post_tag_link.wf(),
        ensures
            final(self).post_tag_link.wf(),
            was == linked(old(self).post_tag_link.rows(), left, right),
            !linked(final(self).post_tag_link.rows(), left, right),
            forall|x: u128, y: u128| !(x == left && y == right) ==> linked(final(self).post_tag_link.rows(), x, y)
                == linked(old(self).post_tag_link.rows(), x, y),
            final(self).post_tag_link.rows() == (if was {
                old(self).post_tag_link.rows().push((left, right, true))
            } else {
                old(self).post_tag_link.rows()
            }),
            final(self).user == old(self).user && final(self).post == old(self).post && final(self).tag == old(self).tag
                && final(self).metric == old(self).metric && final(self).doc == old(self).doc,
    {
        self.post_tag_link.unlink(left, right)
    }

    /// The row of the live author of post `record`, if it has one.
    pub fn post_author(&self, record: &Post) -> (r: Option<usize>)
        requires
            self.user.wf(),
        ensures
            match r {
                Some(r) => self.user.state().log.is_live(record.author)
                    && self.user.state().log.latest_row(record.author) == Some(r as nat),
                None => !self.user.state().log.is_live(record.author),
            },
    {
        self.user.live_row(record.author)
    }

    /// The rows of the live posts by user `id`.
    pub fn user_posts(&self, id: u128) -> (out: Vec<usize>)
        requires
            self.post.wf(),
        ensures
            found(self.post, 1, id_key_spec(id), out@),
    {
        self.post.find_by_author(id)
    }

    /// The rows of the live tags linked to post `id`, in link order.
    pub fn post_tags(&self, id: u128) -> (out: Vec<usize>)
        requires
            self.post_tag_link.wf(),
            self.tag.wf(),
        ensures
            out@ == live_rows_of(self.tag.state().log, self.post_tag_link.rights_list(id)),
    {
        let ids = self.post_tag_link.rights_of(id);
        self.live_rows_among(&ids, 3)
    }

    /// The rows of the live posts linked to tag `id`, in link order.
    pub fn tag_posts(&self, id: u128) -> (out: Vec<usize>)
        requires
            self.post_tag_link.wf(),
            self.post.wf(),
        ensures
            out@ == live_rows_of(self.post.state().log, self.post_tag_link.lefts_list(id)),
    {
        let ids = self.post_tag_link.lefts_of(id);
        self.live_rows_among(&ids, 2)
    }

    /// The rows, at snapshot `snap`, of the tags linked to post `id` as of
    /// the snapshot, in the order the links first appeared.
    pub fn post_tags_at(&self, snap: &DatabaseSnapshot, id: u128) -> (out: Vec<usize>)
        requires
            self.post_tag_link.wf(),
            self.tag.wf(),
            snap.post_tag_link <= self.post_tag_link.rows().len(),
        ensures
            out@ == rows_at_of(self.tag.state().log, snap.tag as nat, rights_in(
                live_pairs(self.post_tag_link.rows().take(snap.post_tag_link as int), snap.post_tag_link as nat), id)),
    {
        let ids = self.post_tag_link.rights_at(snap.post_tag_link, id);
        let ghost s = ids@;
        let mut out: Vec<usize> = Vec::new();
        let mut i: usize = 0;
        while i < ids.len()
            invariant
                i <= s.len(),
                ids@ == s,
                self.tag.wf(),
                out@ == rows_at_of(self.tag.state().log, snap.tag as nat, s.take(i as int)),
            decreases s.len() - i,
        {
            proof {
                assert(s.take(i + 1).drop_last() =~= s.take(i as int));
            }
            match self.tag.get_at(snap.tag, ids[i]) {
                Some(r) => out.push(r),
                None => {},
            }
            i = i + 1;
        }
        assert(s.take(s.len() as int) =~= s);
        out
    }

    /// The live rows of the records `ids` of the tags (`m` 3) or the posts
    /// (else), in order.
    fn live_rows_among(&self, ids: &Vec<u128>, m: usize) -> (out: Vec<usize>)
        requires
            m == 3 ==> self.tag.wf(),
            m != 3 ==> self.post.wf(),
        ensures
            m == 3 ==> out@ == live_rows_of(self.tag.state().log, ids@),
            m != 3 ==> out@ == live_rows_of(self.post.state().log, ids@),
    {
        let ghost s = ids@;
        let ghost log = if m == 3 { self.tag.state().log } else { self.post.state().log };
        let mut out: Vec<usize> = Vec::new();
        let mut i: usize = 0;
        while i < ids.len()
            invariant
                i <= s.len(),
                ids@ == s,
                m == 3 ==> self.tag.wf(),
                m != 3 ==> self.post.wf(),
                log == (if m == 3 { self.tag.state().log } else { self.post.state().log }),
                out@ == live_rows_of(log, s.take(i as int)),
            decreases s.len() - i,
        {
            proof {
                assert(s.take(i + 1).drop_last() =~= s.take(i as int));
            }
            let r = if m == 3 { self.tag.live_row(ids[i]) } else { self.post.live_row(ids[i]) };
            match r {
                Some(r) => out.push(r),
                None => {},
            }
            i = i + 1;
        }
        assert(s.take(s.len() as int) =~= s);
        out
    }
}

/// Whether an id is live in `log`.
pub open spec fn live_in(log: LogView) -> spec_fn(u128) -> bool {
    |x: u128| log.is_live(x)
}

/// The live ids among `ids`, in order.
pub open spec fn live_among(log: LogView, ids: Seq<u128>) -> Seq<u128> {
    ids.filter(live_in(log))
}

/// What the rows of the live records among `ids` are: the row of the latest
/// version of each live id, in order (so every live id among them has its
/// row there, and there are as many rows as live ids), and nothing else.
pub proof fn lemma_live_rows_of(log: LogView, ids: Seq<u128>)
    ensures
        live_rows_of(log, ids).len() == live_among(log, ids).len(),
        forall|k: int| 0 <= k < live_among(log, ids).len() ==>
            #[trigger] live_rows_of(log, ids)[k] == log.latest_row(live_among(log, ids)[k])->0 as usize,
        forall|x: u128| #[trigger] ids.contains(x) && log.is_live(x) ==>
            live_rows_of(log, ids).contains(log.latest_row(x)->0 as usize),
    decreases ids.len(),
{
    reveal(Seq::filter);
    if ids.len() > 0 {
        let rest = ids.drop_last();
        lemma_live_rows_of(log, rest);
        assert(live_among(log, ids) == (if log.is_live(ids.last()) {
            live_among(log, rest).push(ids.last())
        } else {
            live_among(log, rest)
        }));
        assert forall|x: u128| #[trigger] ids.contains(x) && log.is_live(x) implies
            live_rows_of(log, ids).contains(log.latest_row(x)->0 as usize) by {
            let i = choose|i: int| 0 <= i < ids.len() && ids[i] == x;
            if i < ids.len() - 1 {
                assert(rest[i] == x);
                assert(rest.contains(x));
                let k = choose|k: int| 0 <= k < live_rows_of(log, rest).len()
                    && live_rows_of(log, rest)[k] == log.latest_row(x)->0 as usize;
                if log.is_live(ids.last()) {
                    assert(live_rows_of(log, ids)[k] == live_rows_of(log, rest)[k]);
                }
            } else {
                let n = live_rows_of(log, rest).len() as int;
                assert(live_rows_of(log, ids)[n] == log.latest_row(x)->0 as usize);
            }
        }
    }
}

/// Whether an id has a version at a snapshot taken at row count `w` that
/// is no tombstone.
pub open spec fn seen_at(log: LogView, w: nat) -> spec_fn(u128) -> bool {
    |x: u128| log.row_at(w, x) matches Some(r) && !log.deleted[r as int]
}

/// What the rows at a snapshot of the records among `ids` are: for each id,
/// in order, that has a version at the snapshot that is no tombstone, the
/// row of that version (so every such id has its row there, one row each),
/// and nothing else.
pub proof fn lemma_rows_at_of(log: LogView, w: nat, ids: Seq<u128>)
    ensures
        rows_at_of(log, w, ids).len() == ids.filter(seen_at(log, w)).len(),
        forall|k: int| 0 <= k < ids.filter(seen_at(log, w)).len() ==>
            #[trigger] rows_at_of(log, w, ids)[k] == log.row_at(w, ids.filter(seen_at(log, w))[k])->0 as usize,
        forall|x: u128| #[trigger] ids.contains(x) && seen_at(log, w)(x) ==>
            rows_at_of(log, w, ids).contains(log.row_at(w, x)->0 as usize),
    decreases ids.len(),
{
    reveal(Seq::filter);
    if ids.len() > 0 {
        let rest = ids.drop_last();
        lemma_rows_at_of(log, w, rest);
        assert(ids.filter(seen_at(log, w)) == (if seen_at(log, w)(ids.last()) {
            rest.filter(seen_at(log, w)).push(ids.last())
        } else {
            rest.filter(seen_at(log, w))
        }));
        assert forall|x: u128| #[trigger] ids.contains(x) && seen_at(log, w)(x) implies
            rows_at_of(log, w, ids).contains(log.row_at(w, x)->0 as usize) by {
            let i = choose|i: int| 0 <= i < ids.len() && ids[i] == x;
            if i < ids.len() - 1 {
                assert(rest[i] == x);
                assert(rest.contains(x));
                let k = choose|k: int| 0 <= k < rows_at_of(log, w, rest).len()
                    && rows_at_of(log, w, rest)[k] == log.row_at(w, x)->0 as usize;
                if seen_at(log, w)(ids.last()) {
                    assert(rows_at_of(log, w, ids)[k] == rows_at_of(log, w, rest)[k]);
                }
            } else {
                let n = rows_at_of(log, w, rest).len() as int;
                assert(rows_at_of(log, w, ids)[n] == log.row_at(w, x)->0 as usize);
            }
        }
    }
}

impl Database {
    /// The tags of a post are exactly its linked live tags: `post_tags(id)`
    /// holds the row of every live tag linked to post `id`, once each, one
    /// row per such tag, and the row of no other record.
    pub proof fn lemma_post_tags_complete(&self, id: u128, out: Seq<usize>)
        requires
            self.post_tag_link.wf(),
            self.tag.wf(),
            out == live_rows_of(self.tag.state().log, self.post_tag_link.rights_list(id)),
        ensures
            forall|x: u128| #[trigger] linked(self.post_tag_link.rows(), id, x) && self.tag.state().log.is_live(x) ==>
                out.contains(self.tag.state().log.latest_row(x)->0 as usize),
            forall|k: int| #![trigger out[k]] #![trigger live_among(self.tag.state().log, self.post_tag_link.rights_list(id))[k]] 0 <= k < out.len() ==> {
                &&& linked(self.post_tag_link.rows(), id, live_among(self.tag.state().log, self.post_tag_link.rights_list(id))[k])
                &&& self.tag.state().log.is_live(live_among(self.tag.state().log, self.post_tag_link.rights_list(id))[k])
                &&& out[k] == self.tag.state().log.latest_row(live_among(self.tag.state().log, self.post_tag_link.rights_list(id))[k])->0 as usize
            },
            out.len() == live_among(self.tag.state().log, self.post_tag_link.rights_list(id)).len(),
    {
        self.post_tag_link.lemma_lists();
        let log = self.tag.state().log;
        let ids = self.post_tag_link.rights_list(id);
        lemma_live_rows_of(log, ids);
        assert forall|x: u128| #[trigger] linked(self.post_tag_link.rows(), id, x) && log.is_live(x) implies
            out.contains(log.latest_row(x)->0 as usize) by {
            assert(ids.contains(x));
        }
        assert forall|k: int| #![trigger out[k]] #![trigger live_among(self.tag.state().log, self.post_tag_link.rights_list(id))[k]] 0 <= k < out.len() implies {
            &&& linked(self.post_tag_link.rows(), id, live_among(self.tag.state().log, self.post_tag_link.rights_list(id))[k])
            &&& self.tag.state().log.is_live(live_among(self.tag.state().log, self.post_tag_link.rights_list(id))[k])
            &&& out[k] == self.tag.state().log.latest_row(live_among(self.tag.state().log, self.post_tag_link.rights_list(id))[k])->0 as usize
        } by {
            let x = live_among(log, ids)[k];
            assert(k < live_among(log, ids).len());
            ids.lemma_filter_pred(live_in(log), k);
            assert(log.is_live(x));
            assert(live_among(log, ids).contains(x));
            ids.lemma_filter_contains_rev(live_in(log), x);
            assert(ids.contains(x));
            assert(linked(self.post_tag_link.rows(), id, x));
        }
    }

    /// The posts of a tag are exactly its linked live posts: `tag_posts(id)`
    /// holds the row of every live post linked to tag `id`, once each, one
    /// row per such post, and the row of no other record.
    pub proof fn lemma_tag_posts_complete(&self, id: u128, out: Seq<usize>)
        requires
            self.post_tag_link.wf(),
            self.post.wf(),
            out == live_rows_of(self.post.state().log, self.post_tag_link.lefts_list(id)),
        ensures
            forall|x: u128| #[trigger] linked(self.post_tag_link.rows(), x, id) && self.post.state().log.is_live(x) ==>
                out.contains(self.post.state().log.latest_row(x)->0 as usize),
            forall|k: int| #![trigger out[k]] #![trigger live_among(self.post.state().log, self.post_tag_link.lefts_list(id))[k]] 0 <= k < out.len() ==> {
                &&& linked(self.post_tag_link.rows(), live_among(self.post.state().log, self.post_tag_link.lefts_list(id))[k], id)
                &&& self.post.state().log.is_live(live_among(self.post.state().log, self.post_tag_link.lefts_list(id))[k])
                &&& out[k] == self.post.state().log.latest_row(live_among(self.post.state().log, self.post_tag_link.lefts_list(id))[k])->0 as usize
            },
            out.len() == live_among(self.post.state().log, self.post_tag_link.lefts_list(id)).len(),
    {
        self.post_tag_link.lemma_lists();
        let log = self.post.state().log;
        let ids = self.post_tag_link.lefts_list(id);
        lemma_live_rows_of(log, ids);
        assert forall|x: u128| #[trigger] linked(self.post_tag_link.rows(), x, id) && log.is_live(x) implies
            out.contains(log.latest_row(x)->0 as usize) by {
            assert(ids.contains(x));
        }
        assert forall|k: int| #![trigger out[k]] #![trigger live_among(self.post.state().log, self.post_tag_link.lefts_list(id))[k]] 0 <= k < out.len() implies {
            &&& linked(self.post_tag_link.rows(), live_among(self.post.state().log, self.post_tag_link.lefts_list(id))[k], id)
            &&& self.post.state().log.is_live(live_among(self.post.state().log, self.post_tag_link.lefts_list(id))[k])
            &&& out[k] == self.post.state().log.latest_row(live_among(self.post.state().log, self.post_tag_link.lefts_list(id))[k])->0 as usize
        } by {
            let x = live_among(log, ids)[k];
            assert(k < live_among(log, ids).len());
            ids.lemma_filter_pred(live_in(log), k);
            assert(log.is_live(x));
            assert(live_among(log, ids).contains(x));
            ids.lemma_filter_contains_rev(live_in(log), x);
            assert(ids.contains(x));
            assert(linked(self.post_tag_link.rows(), x, id));
        }
    }
}

} // verus!
