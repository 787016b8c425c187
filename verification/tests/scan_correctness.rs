use forgedb_db::db::Database;
use forgedb_db::records::{Post, User};
use forgedb_db::table::Table;
use std::collections::BTreeMap;

fn user(i: u128) -> User {
    User {
        id: 0xA000_0000_0000_0000_0000_0000_0000_0000 + i,
        name: format!("user {i}"),
        email: format!("user{i}@example.com"),
        created_at: 1_700_000_000 + i as i64,
    }
}

fn post(i: u128, author: u128) -> Post {
    Post {
        id: 0xB000_0000_0000_0000_0000_0000_0000_0000 + i,
        title: format!("title \u{2713} {i}"),
        views: (i as u64) * 7,
        published: i % 2 == 0,
        author,
        created_at: 1_700_000_500 + i as i64,
    }
}

/// Ground truth: the live posts keyed by id, found one id at a time; each
/// row's record is the one stored for that row.
fn ground_truth(t: &Table<Post>, ids: &[u128], stored: &[(u128, bool, Post)]) -> BTreeMap<u128, (String, u64, bool, i64)> {
    ids.iter()
        .filter_map(|id| t.live_row(*id).map(|r| {
            let p = &stored[r].2;
            assert_eq!(t.ord_at(r), p.views);
            (*id, (p.title.clone(), p.views, p.published, p.created_at))
        }))
        .collect()
}

/// The same map, built from the rows an unfiltered scan reads.
fn from_scan(t: &Table<Post>, stored: &[(u128, bool, Post)]) -> BTreeMap<u128, (String, u64, bool, i64)> {
    t.scan_rows(None)
        .into_iter()
        .map(|r| {
            let p = &stored[r].2;
            assert_eq!(t.model().log().id_at(r), p.id);
            (p.id, (p.title.clone(), p.views, p.published, p.created_at))
        })
        .collect()
}

/// The projected (views, published) columns keyed by id, from the per-id reads.
fn ground_truth_agg(t: &Table<Post>, ids: &[u128], stored: &[(u128, bool, Post)]) -> BTreeMap<u128, (u64, bool)> {
    ids.iter()
        .filter_map(|id| t.live_row(*id).map(|r| (*id, (stored[r].2.views, stored[r].2.published))))
        .collect()
}

/// The same projection from an unfiltered scan's rows.
fn from_agg_scan(t: &Table<Post>, stored: &[(u128, bool, Post)]) -> BTreeMap<u128, (u64, bool)> {
    t.scan_rows(None)
        .into_iter()
        .map(|r| (t.model().log().id_at(r), (stored[r].2.views, stored[r].2.published)))
        .collect()
}

#[test]
fn buffered_scan_matches_per_row_reads_under_churn() {
    let mut db = Database::new();
    let mut stored: Vec<(u128, bool, Post)> = Vec::new();

    let author = user(1);
    let author_id = author.id;
    db.user.insert(author).expect("insert user");

    let mut ids = Vec::new();
    for i in 0..500u128 {
        let p = post(i, author_id);
        ids.push(p.id);
        let w = db.post.insert(p).expect("insert post");
        stored.push((w.record.id, false, w.record));
    }
    assert_eq!(ground_truth(&db.post, &ids, &stored), from_scan(&db.post, &stored), "after inserts");
    assert_eq!(from_scan(&db.post, &stored).len(), 500);
    assert_eq!(ground_truth_agg(&db.post, &ids, &stored), from_agg_scan(&db.post, &stored), "projected agg scan after inserts");

    for (i, id) in ids.iter().enumerate() {
        if i % 3 == 0 {
            let mut p = post(i as u128, author_id);
            p.title = format!("UPDATED {i}");
            p.views = 1_000_000 + i as u64;
            p.published = !p.published;
            let w = db.post.update(*id, p).expect("update ok");
            assert!(w.is_some(), "update {i}");
            stored.push((*id, false, w.unwrap().record));
        }
    }
    assert_eq!(ground_truth(&db.post, &ids, &stored), from_scan(&db.post, &stored), "after updates");
    assert_eq!(ground_truth_agg(&db.post, &ids, &stored), from_agg_scan(&db.post, &stored), "projected agg scan after updates");

    let mut deleted = 0;
    for (i, id) in ids.iter().enumerate() {
        if i % 5 == 0 {
            assert!(db.post.delete(*id).is_some(), "delete {i}");
            stored.push((*id, true, post(i as u128, author_id)));
            deleted += 1;
        }
    }
    let gt = ground_truth(&db.post, &ids, &stored);
    assert_eq!(gt, from_scan(&db.post, &stored), "after deletes");
    assert_eq!(gt.len(), 500 - deleted, "deleted rows must be excluded");
    let gt_agg = ground_truth_agg(&db.post, &ids, &stored);
    assert_eq!(gt_agg, from_agg_scan(&db.post, &stored), "projected agg scan after deletes");

    let mut t: Table<Post> = Table::new();
    for (id, del, rec) in &stored {
        t.load_row(*id, *del, rec);
    }
    t.reindex_committed();
    assert_eq!(gt, from_scan(&t, &stored), "after reopen");
    assert_eq!(gt_agg, from_agg_scan(&t, &stored), "projected agg scan after reopen");
}

#[test]
fn buffered_scan_empty_model() {
    let t: Table<Post> = Table::new();
    assert!(t.scan_rows(None).is_empty(), "empty model scans to []");
}
