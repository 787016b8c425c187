use forgedb_db::db::Database;
use forgedb_db::records::{Post, User};
use forgedb_db::table::Table;
use forgedb_db::tx::TxHandle;

fn author(db: &mut Database) -> u128 {
    let u = User { id: 0xA1, name: "a".to_string(), email: "a@x.com".to_string(), created_at: 1 };
    let id = u.id;
    db.user.insert(u).unwrap();
    id
}

fn post(i: u128, views: u64, author: u128) -> Post {
    Post {
        id: 0xB000 + i,
        title: format!("p{i}"),
        views,
        published: true,
        author,
        created_at: 100 + i as i64,
    }
}

/// The views of the returned rows, in returned order.
fn views_of(t: &Table<Post>, rows: &[usize]) -> Vec<u64> {
    rows.iter().map(|r| t.ord_at(*r)).collect()
}

/// The stored rows of the post table, as a reopen reads them back.
struct PostLog {
    rows: Vec<(u128, bool, Post)>,
}

impl PostLog {
    fn reopen(&self) -> Table<Post> {
        let mut t: Table<Post> = Table::new();
        for (id, deleted, rec) in &self.rows {
            t.load_row(*id, *deleted, rec);
        }
        t.reindex_committed();
        t
    }
}

#[test]
fn ordered_index_range_and_top_n() {
    let mut db = Database::new();
    let a = author(&mut db);

    for (i, v) in [(0u128, 30u64), (1, 10), (2, 50), (3, 20), (4, 40)] {
        db.post.insert(post(i, v, a)).unwrap();
    }

    assert_eq!(views_of(&db.post, &db.post.range_rows(None, None, false, None)), vec![10, 20, 30, 40, 50]);
    assert_eq!(views_of(&db.post, &db.post.range_rows(None, None, true, None)), vec![50, 40, 30, 20, 10]);
    assert_eq!(views_of(&db.post, &db.post.range_rows(Some(20), Some(40), false, None)), vec![20, 30, 40]);
    assert_eq!(views_of(&db.post, &db.post.range_rows(None, None, true, Some(2))), vec![50, 40]);
    assert_eq!(views_of(&db.post, &db.post.range_rows(Some(25), None, true, Some(2))), vec![50, 40]);
    assert!(db.post.range_rows(Some(100), None, false, None).is_empty());
    assert!(db.post.range_rows(Some(40), Some(20), false, None).is_empty());
}

#[test]
fn ordered_index_maintained_under_update_delete_reopen() {
    let mut db = Database::new();
    let a = author(&mut db);
    let mut log = PostLog { rows: Vec::new() };
    for (i, v) in [(0u128, 30u64), (1, 10), (2, 50), (3, 20), (4, 40)] {
        let w = db.post.insert(post(i, v, a)).unwrap();
        log.rows.push((w.record.id, false, w.record));
    }

    let p = post(0, 5, a);
    let w = db.post.update(0xB000, p).unwrap();
    assert!(w.is_some());
    let w = w.unwrap();
    log.rows.push((0xB000, false, w.record));
    assert_eq!(views_of(&db.post, &db.post.range_rows(None, None, false, None)), vec![5, 10, 20, 40, 50]);
    assert!(db.post.range_rows(Some(30), Some(30), false, None).is_empty());
    assert_eq!(views_of(&db.post, &db.post.range_rows(Some(5), Some(5), false, None)), vec![5]);

    let d = db.post.delete(0xB002);
    assert!(d.is_some());
    log.rows.push((0xB002, true, post(2, 50, a)));
    assert_eq!(views_of(&db.post, &db.post.range_rows(None, None, true, None)), vec![40, 20, 10, 5]);

    let t = log.reopen();
    assert_eq!(views_of(&t, &t.range_rows(None, None, false, None)), vec![5, 10, 20, 40]);
    assert_eq!(views_of(&t, &t.range_rows(Some(10), None, true, Some(2))), vec![40, 20]);
}

#[test]
fn range_limit_zero_returns_nothing() {
    let mut db = Database::new();
    let a = author(&mut db);
    for (i, v) in [(0u128, 30u64), (1, 10), (2, 50), (3, 20), (4, 40)] {
        db.post.insert(post(i, v, a)).unwrap();
    }
    assert!(db.post.range_rows(None, None, false, Some(0)).is_empty());
    assert!(db.post.find_by_views_range(None, None, true, Some(0)).is_empty());
    assert_eq!(views_of(&db.post, &db.post.find_by_views_range(None, None, false, Some(1))), vec![10]);
    assert_eq!(views_of(&db.post, &db.post.find_by_views_range(None, None, false, Some(9))), vec![10, 20, 30, 40, 50]);
}

#[test]
fn ordered_index_consistent_under_transactional_update() {
    let mut db = Database::new();
    let a = author(&mut db);
    for (i, v) in [(0u128, 30u64), (1, 10), (2, 50), (3, 20), (4, 40)] {
        db.post.insert(post(i, v, a)).unwrap();
    }
    let mut tx = TxHandle::begin();
    let w = tx.update_post(&mut db, 0xB000, post(0, 5, a)).unwrap();
    assert!(w.is_some());
    tx.commit(&mut db);
    assert_eq!(views_of(&db.post, &db.post.find_by_views_range(None, None, false, None)), vec![5, 10, 20, 40, 50]);
    assert!(db.post.find_by_views_range(Some(30), Some(30), false, None).is_empty());
    assert_eq!(views_of(&db.post, &db.post.find_by_views_range(Some(10), None, true, Some(2))), vec![50, 40]);
}

#[test]
fn ordered_index_rebuilt_on_reopen_after_transactional_update() {
    let mut db = Database::new();
    let a = author(&mut db);
    let mut log = PostLog { rows: Vec::new() };
    for (i, v) in [(0u128, 30u64), (1, 10), (2, 50), (3, 20), (4, 40)] {
        let w = db.post.insert(post(i, v, a)).unwrap();
        log.rows.push((w.record.id, false, w.record));
    }
    let mut tx = TxHandle::begin();
    let w = tx.update_post(&mut db, 0xB003, post(3, 60, a)).unwrap().unwrap();
    log.rows.push((0xB003, false, w.record));
    tx.commit(&mut db);
    let t = log.reopen();
    assert_eq!(views_of(&t, &t.range_rows(None, None, false, None)), vec![10, 30, 40, 50, 60]);
    assert_eq!(views_of(&db.post, &db.post.range_rows(None, None, false, None)), vec![10, 30, 40, 50, 60]);
}
