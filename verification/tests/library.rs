use forgedb_db::bench::{dataset, id_for, list_grid, list_sql, LIST_SHAPES};
use forgedb_db::db::{after_attempt, apply_change, check_manifest, Applied, AttemptNext, AttemptOutcome, Catchup, CatchupStep, ChangeKind, Database, ManifestCheck, Retry};
use forgedb_db::errors::{ApplyError, TxError, ValidationError};
use forgedb_db::ids::uuid_of;
use forgedb_db::journal::committed_counts;
use forgedb_db::keys::{id_key, str_key, u64_key, ws_key};
use forgedb_db::links::LinkTable;
use forgedb_db::maintenance::Maintenance;
use forgedb_db::paging::{fast_page_rows, kept_slots, page_rows, page_window, sort_rows};
use forgedb_db::records::{Post, Tag, User};
use forgedb_db::table::Table;
use forgedb_db::timestamps::{check_timestamp, ts_from_seconds};
use forgedb_db::tx::TxHandle;
use forgedb_db::validate::email_ok;
use forgedb_db::wal::{decode_frame, encode_frame, ReplayCursor, ReplayStep};

fn user(id: u128, email: &str) -> User {
    User { id, name: "n".to_string(), email: email.to_string(), created_at: 5_000 }
}

fn post(id: u128, author: u128, views: u64) -> Post {
    Post { id, title: "a title".to_string(), views, published: true, author, created_at: 7_000 }
}

#[test]
fn status_codes_per_variant() {
    assert_eq!(ValidationError::Unique { model: "User", field: "email" }.status_code(), 409);
    assert_eq!(ValidationError::DanglingReference { model: "Post", field: "author", target: "User" }.status_code(), 409);
    assert_eq!(ValidationError::ReferencedByChildren { model: "Post", field: "author" }.status_code(), 409);
    let c = ValidationError::Constraint { model: "Post", field: "title", rule: "length", message: "m".to_string() };
    assert_eq!(c.status_code(), 422);
    assert_eq!(ValidationError::SequenceExhausted { model: "A", field: "b" }.status_code(), 500);
    assert_eq!(TxError::Io("disk".to_string()).status_code(), 500);
    assert_eq!(TxError::Conflict.status_code(), 409);
    assert_eq!(TxError::CoordinatorUnavailable("x".to_string()).status_code(), 503);
    assert_eq!(TxError::Validation(c).status_code(), 422);
}

#[test]
fn list_grid_and_sql() {
    assert_eq!(list_grid(), vec![(1_000, 50), (10_000, 50), (100_000, 50), (10_000, 1_000)]);
    assert_eq!(
        list_sql(" WHERE views = 512", 50, 100),
        "SELECT id, title, views, published, author, created_at FROM post WHERE views = 512 LIMIT 50 OFFSET 100"
    );
    assert_eq!(
        list_sql("", 1000, 0),
        "SELECT id, title, views, published, author, created_at FROM post LIMIT 1000 OFFSET 0"
    );
}

#[test]
fn dataset_is_deterministic() {
    let d = dataset(3, 5);
    assert_eq!(d.users.len(), 3);
    assert_eq!(d.users[2].name, "user2");
    assert_eq!(d.users[2].email, "user2@example.com");
    assert_eq!(d.users[2].created_at, 1_700_000_002);
    assert_eq!(d.users[1].id, id_for(1, 1));
    let views: Vec<u64> = d.posts.iter().map(|p| p.views).collect();
    assert_eq!(views, vec![99016, 45088, 95213, 84223, 66454]);
    assert_eq!(d.posts[3].title, "post title number 3");
    assert!(d.posts[2].published && !d.posts[3].published);
    assert_eq!(d.posts[4].author, id_for(1, 1));
    assert_eq!(d.tags.len(), 5);
    assert_eq!(d.tags[4].name, "tag4");
    assert_eq!(d.links.len(), 15);
    assert_eq!(&d.links[0..3], &[(0, 0), (0, 1), (0, 2)]);
    assert_eq!(d.links[3], (1, 2));
    let e = dataset(0, 0);
    assert_eq!(e.tags.len(), 1);
    assert!(e.users.is_empty() && e.posts.is_empty() && e.links.is_empty());
}

#[test]
fn ids_and_keys() {
    let b = id_for(2, 7);
    assert_eq!(b, [0, 0, 0, 2, 0, 0, 0, 0, 0, 0, 0, 0, 0, 0, 0, 7]);
    assert_eq!(uuid_of(&b.to_vec()), (2u128 << 96) | 7);
    assert_eq!(str_key("x"), "\u{1}x");
    assert_eq!(u64_key(42), "\u{2}42");
    assert_eq!(id_key(1), "\u{1}00000000-0000-0000-0000-000000000001");
    let k = ws_key(&vec![b"r".to_vec(), b"User".to_vec(), vec![9, 9]]);
    assert_eq!(k, vec![1, 0, 0, 0, b'r', 4, 0, 0, 0, b'U', b's', b'e', b'r', 2, 0, 0, 0, 9, 9]);
}

#[test]
fn timestamps_and_emails() {
    assert_eq!(ts_from_seconds(3), 3_000_000);
    assert_eq!(ts_from_seconds(-2), -2_000_000);
    assert!(check_timestamp("User", "created_at", 0).is_ok());
    let e = check_timestamp("User", "created_at", 253_402_300_800_000_000).unwrap_err();
    assert_eq!(
        e,
        ValidationError::Constraint {
            model: "User",
            field: "created_at",
            rule: "timestamp_range",
            message: "must be an instant RFC 3339 can name (years 0000 through 9999); the value is storable but would fail to serialize on every read \u{2014} got 253402300800000000 microseconds since the epoch".to_string(),
        }
    );
    assert!(email_ok("ada@example.com"));
    assert!(!email_ok("ada.example.com"));
    assert!(!email_ok("@example.com"));
    assert!(!email_ok("a@b@example.com"));
    assert!(!email_ok("ada@example"));
    assert!(!email_ok("ada@.example.com"));
    assert!(!email_ok("ada@example.com."));
    assert!(!email_ok("a da@example.com"));
}

#[test]
fn wal_frames_round_trip() {
    let f = encode_frame(0x0102, true, &b"{}".to_vec());
    assert_eq!(f, vec![2, 1, 0, 0, 0, 0, 0, 0, 1, b'{', b'}']);
    let h = decode_frame(&f).unwrap();
    assert_eq!(h.row, 0x0102);
    assert!(h.deleted);
    assert!(decode_frame(&vec![0; 8]).is_none());
    let g = encode_frame(u64::MAX, false, &vec![]);
    let h = decode_frame(&g).unwrap();
    assert_eq!(h.row, u64::MAX);
    assert!(!h.deleted);
    let mut weird = f.clone();
    weird[8] = 7;
    assert!(decode_frame(&weird).unwrap().deleted);
}

#[test]
fn replay_skips_present_rows() {
    let mut c = ReplayCursor::new(3);
    assert!(matches!(c.classify(&encode_frame(2, false, &vec![])), ReplayStep::Skip));
    assert!(matches!(c.classify(&vec![1, 2, 3]), ReplayStep::Skip));
    assert!(matches!(c.classify(&encode_frame(3, true, &vec![])), ReplayStep::Apply { deleted: true }));
    c.accept();
    assert_eq!(c.row_count, 4);
    assert!(matches!(c.classify(&encode_frame(3, false, &vec![])), ReplayStep::Skip));
}

#[test]
fn paging_windows() {
    assert_eq!(page_window(10, 3, 4), (3, 7));
    assert_eq!(page_window(10, 8, 5), (8, 10));
    assert_eq!(page_window(10, 20, 5), (10, 10));
    assert_eq!(page_window(10, 2, usize::MAX), (2, 10));
    assert_eq!(sort_rows(vec![5, 1, 4, 1, 3]), vec![1, 1, 3, 4, 5]);
    assert_eq!(kept_slots(&vec![true, false, true, true]), vec![0, 2, 3]);
    let rows = vec![10, 11, 12, 13];
    let p = page_rows(&rows, &vec![3, 0, 2], 1, 5);
    assert_eq!(p.total, 3);
    assert_eq!(p.rows, vec![10, 12]);
    let q = fast_page_rows(&rows, 1, 2);
    assert_eq!(q.total, 4);
    assert_eq!(q.rows, vec![11, 12]);
}

#[test]
fn links_follow_link_and_unlink() {
    let mut t = LinkTable::new();
    t.link(1, 10);
    t.link(1, 11);
    t.link(2, 10);
    t.link(1, 10);
    assert_eq!(t.row_count(), 4);
    assert_eq!(t.rights_of(1), vec![10, 11]);
    assert_eq!(t.lefts_of(10), vec![1, 2]);
    assert!(t.unlink(1, 10));
    assert!(!t.unlink(1, 10));
    assert_eq!(t.row_count(), 5);
    assert_eq!(t.rights_of(1), vec![11]);
    assert_eq!(t.pairs(), vec![(1, 11), (2, 10)]);
    assert_eq!(t.pairs_prefix(2), vec![(1, 10), (1, 11)]);
    assert_eq!(t.rights_at(4, 1), vec![10, 11]);
    t.link(1, 10);
    assert_eq!(t.rights_of(1), vec![11, 10]);
    assert_eq!(t.pairs(), vec![(1, 10), (1, 11), (2, 10)]);
    t.unlink_all_right(10);
    assert_eq!(t.lefts_of(10), Vec::<u128>::new());
    assert_eq!(t.rights_of(1), vec![11]);
    assert_eq!(t.row(6), (2, 10, true));
    assert_eq!(t.row(7), (1, 10, true));

    let r = LinkTable::from_rows(vec![1, 1, 2, 1], vec![10, 11, 10, 10], vec![false, false, false, true]);
    assert_eq!(r.rights_of(1), vec![11]);
    assert_eq!(r.lefts_of(10), vec![2]);
    let s = LinkTable::from_rows(vec![1, 1], vec![10, 11], vec![]);
    assert_eq!(s.rights_of(1), vec![10, 11]);
}

#[test]
fn database_references_are_checked() {
    let mut db = Database::new();
    let e = db.create_post(post(0xB1, 0xA1, 3)).unwrap_err();
    assert_eq!(e, ValidationError::DanglingReference { model: "Post", field: "author", target: "User" });
    db.create_user(user(0xA1, "a@x.com")).unwrap();
    let w = db.create_post(post(0xB1, 0xA1, 3)).unwrap();
    assert_eq!(w.row, 0);
    assert_eq!(w.record.created_at, 7_000);
    let e = db.delete_user(0xA1).unwrap_err();
    assert_eq!(e, ValidationError::ReferencedByChildren { model: "Post", field: "author" });
    db.create_tag(Tag { id: 0xC1, name: "t".to_string() }).unwrap();
    db.post_tag_link.link(0xB1, 0xC1);
    assert!(db.delete_post(0xB1).unwrap().is_some());
    assert_eq!(db.post_tag_link.rights_of(0xB1), Vec::<u128>::new());
    assert!(db.delete_post(0xB1).unwrap().is_none());
    assert!(db.delete_user(0xA1).unwrap().is_some());
    assert!(db.delete_user(0xA1).unwrap().is_none());
    let e = db.delete_user_cascade(0xA1, 65).unwrap_err();
    assert_eq!(e, ValidationError::ReferencedByChildren { model: "User", field: "on_delete cascade depth exceeded" });
}

#[test]
fn creates_fill_ids_and_times() {
    let mut db = Database::new();
    let w = db.create_user_with(user(0, "b@x.com"), 77, 12_345_678).unwrap();
    assert_eq!(w.record.id, 77);
    assert_eq!(w.record.created_at, 5_000);
    let mut u = user(0, "c@x.com");
    u.created_at = 0;
    let w = db.create_user_with(u, 78, 12_345_678).unwrap();
    assert_eq!(w.record.created_at, 12_345_000);
    let w = db.create_user(user(0, "d@x.com")).unwrap();
    assert_ne!(w.record.id, 0);
    let e = db.create_user_with(user(0, "b@x.com"), 79, 1).unwrap_err();
    assert_eq!(e, ValidationError::Unique { model: "User", field: "email" });
    let e = db.create_user_with(user(80, "bad"), 80, 1).unwrap_err();
    assert_eq!(e.status_code(), 422);
}

#[test]
fn unique_email_and_snapshot_reads() {
    let mut t: Table<User> = Table::new();
    t.insert(user(1, "a@x.com")).unwrap();
    let w = t.row_count();
    assert!(t.insert(user(2, "a@x.com")).is_err());
    t.insert(user(2, "b@x.com")).unwrap();
    let r = t.update(1, user(1, "c@x.com")).unwrap().unwrap();
    assert_eq!(r.row, 2);
    assert_eq!(t.row_at(w, 1), Some(0));
    assert_eq!(t.row_at(w, 2), None);
    assert_eq!(t.live_row(1), Some(2));
    assert_eq!(t.rows_for_key(0, &str_key("a@x.com")), Vec::<usize>::new());
    assert_eq!(t.rows_for_key(0, &str_key("c@x.com")), vec![2]);
    assert!(t.update(9, user(9, "z@x.com")).unwrap().is_none());
}

#[test]
fn transactions_stage_then_commit_or_roll_back() {
    let mut db = Database::new();
    let mut tx = TxHandle::begin();
    tx.create_user(&mut db, user(1, "a@x.com")).unwrap();
    let e = tx.create_user(&mut db, user(2, "a@x.com")).unwrap_err();
    assert!(matches!(e, TxError::Validation(ValidationError::Unique { .. })));
    assert_eq!(db.user.live_row(1), None);
    let ws = tx.write_set();
    assert_eq!(ws.len(), 2);
    assert_eq!(&ws[0][0..5], &[1, 0, 0, 0, b'r']);
    let j = tx.journal(&db);
    assert_eq!(j, vec![("User", 1)]);
    assert_eq!(tx.journal_payload(&db).unwrap(), b"[[\"User\",1]]".to_vec());
    assert_eq!(committed_counts(&b"[[\"User\",1],[\"Post\",4]]".to_vec()), vec![("User".to_string(), 1), ("Post".to_string(), 4)]);
    assert_eq!(committed_counts(&b"not json".to_vec()), Vec::<(String, u64)>::new());
    let acts = tx.commit(&mut db);
    assert_eq!(acts.len(), 1);
    assert_eq!(db.user.live_row(1), Some(0));

    let mut tx = TxHandle::begin();
    let w = tx.create_user_with(&mut db, user(0, "n@x.com"), 77, 0).unwrap();
    assert_eq!(w.record.id, 77);
    assert_eq!(w.record.created_at, 5_000);
    tx.rollback(&mut db);

    let mut tx = TxHandle::begin();
    let e = tx.create_post(&mut db, post(5, 99, 1)).unwrap_err();
    assert!(matches!(e, TxError::Validation(ValidationError::DanglingReference { .. })));
    tx.create_post(&mut db, post(5, 1, 1)).unwrap();
    assert_eq!(tx.delete_user(&mut db, 1), Some(1));
    tx.rollback(&mut db);
    assert_eq!(db.post.row_count(), 0);
    assert_eq!(db.user.row_count(), 1);
    assert_eq!(db.user.live_row(1), Some(0));
}

#[test]
fn maintenance_and_misc_decisions() {
    let mut m = Maintenance::new();
    let mut fired = 0;
    for _ in 0..1000 {
        if m.after_insert().checkpoint {
            fired += 1;
        }
    }
    assert_eq!(fired, 1);
    assert!(matches!(check_manifest(1, 2), ManifestCheck::Compatible));
    assert!(matches!(check_manifest(2, 3), ManifestCheck::SchemaMismatch));
    assert!(matches!(check_manifest(1, 3), ManifestCheck::EngineMismatch));
    let mut r = Retry::new(2);
    let mut n = 0;
    while r.next_attempt() {
        n += 1;
    }
    assert_eq!(n, 3);

    let mut t: Table<User> = Table::new();
    let a = apply_change(&mut t, ChangeKind::Inserted, user(1, "a@x.com")).unwrap();
    assert!(matches!(a, Applied::Wrote(_)));
    let b = apply_change(&mut t, ChangeKind::Inserted, user(2, "a@x.com"));
    assert!(matches!(b, Err(ApplyError::Validation(ValidationError::Unique { .. }))));
    let c = apply_change(&mut t, ChangeKind::Deleted, user(1, "a@x.com")).unwrap();
    assert!(matches!(c, Applied::Removed(1, _)));
    let d = apply_change(&mut t, ChangeKind::Linked, user(1, "a@x.com")).unwrap();
    assert!(matches!(d, Applied::Nothing));

    let mut db = Database::new();
    let mut ev = vec![0u8; 32];
    ev[15] = 1;
    ev[31] = 2;
    db.apply_link_event(&ev);
    assert_eq!(db.post_tag_link.rights_of(1), vec![2]);
    db.apply_link_event(&vec![0u8; 31]);
    assert_eq!(db.post_tag_link.row_count(), 1);
}

#[test]
fn error_texts() {
    assert_eq!(
        ValidationError::Unique { model: "User", field: "email" }.describe(),
        "unique constraint violated on field `User.email`"
    );
    assert_eq!(
        ValidationError::DanglingReference { model: "Post", field: "author", target: "User" }.describe(),
        "field `Post.author` references a non-existent User"
    );
    assert_eq!(
        ValidationError::ReferencedByChildren { model: "Post", field: "author" }.describe(),
        "cannot delete: Post rows still reference it via `author` (on_delete=restrict)"
    );
    let c = ValidationError::Constraint { model: "Tag", field: "name", rule: "length", message: "too long".to_string() };
    assert_eq!(c.describe(), "field `Tag.name` violates `length`: too long");
    assert_eq!(
        ValidationError::SequenceExhausted { model: "A", field: "n" }.describe(),
        "auto-increment sequence for `A.n` is exhausted"
    );
    assert_eq!(ApplyError::Decode("eof".to_string()).describe(), "failed to decode replication frame: eof");
    assert_eq!(
        ApplyError::Validation(c.clone()).describe(),
        "replicated write rejected: field `Tag.name` violates `length`: too long"
    );
    assert_eq!(TxError::Validation(c).describe(), "transaction rejected: field `Tag.name` violates `length`: too long");
    assert_eq!(TxError::Io("disk".to_string()).describe(), "transaction I/O failure: disk");
    assert_eq!(TxError::Conflict.describe(), "transaction conflict (retry)");
    assert_eq!(TxError::CoordinatorUnavailable("down".to_string()).describe(), "commit coordinator unavailable: down");
}

#[test]
fn compaction_keeps_live_records() {
    let mut t: Table<User> = Table::new();
    t.insert(user(1, "a@x.com")).unwrap();
    t.insert(user(2, "b@x.com")).unwrap();
    t.insert(user(3, "c@x.com")).unwrap();
    t.update(2, user(2, "bb@x.com")).unwrap();
    t.delete(3).unwrap();
    let keep = t.live_rows();
    assert_eq!(keep, vec![0, 3]);
    assert!(t.request_compaction());
    t.compact_to(&keep);
    t.compaction_done();
    assert_eq!(t.row_count(), 2);
    assert_eq!(t.live_row(1), Some(0));
    assert_eq!(t.live_row(2), Some(1));
    assert_eq!(t.live_row(3), None);
    assert_eq!(t.rows_for_key(0, &str_key("bb@x.com")), vec![1]);
}

#[test]
fn compaction_is_deferred_inside_transactions() {
    let mut t: Table<User> = Table::new();
    t.insert(user(1, "a@x.com")).unwrap();
    t.update(1, user(1, "b@x.com")).unwrap();
    let mark = t.begin_transaction();
    assert_eq!(t.compact(), None);
    assert_eq!(t.row_count(), 2);
    let a = t.rollback_transaction(mark);
    assert!(a.compact);
    assert_eq!(t.compact(), Some(vec![1]));
    assert_eq!(t.row_count(), 1);
    assert_eq!(t.live_row(1), Some(0));
    assert_eq!(t.rows_for_key(0, &str_key("b@x.com")), vec![0]);
}

#[test]
fn catchup_stops_past_target() {
    let mut c = Catchup::new(4, 6);
    assert!(matches!(c.step(5), CatchupStep::Apply));
    c.applied(5);
    assert!(matches!(c.step(6), CatchupStep::Apply));
    c.applied(6);
    assert!(matches!(c.step(7), CatchupStep::Stop));
    assert_eq!((c.after, c.applied), (6, 6));
}

#[test]
fn list_shapes_build_queries() {
    assert_eq!(LIST_SHAPES.len(), 4);
    assert_eq!(LIST_SHAPES[2], ("filtered_indexed", " WHERE views = 512"));
    assert_eq!(
        list_sql(LIST_SHAPES[3].1, 50, 10),
        "SELECT id, title, views, published, author, created_at FROM post ORDER BY views DESC LIMIT 50 OFFSET 10"
    );
}

#[test]
fn linking_twice_is_linking_once() {
    let mut t = LinkTable::new();
    t.link(2, 20);
    let k = t.row_count();
    t.link(1, 10);
    let (rights, lefts, pairs) = (t.rights_of(1), t.lefts_of(10), t.pairs());
    t.link(1, 10);
    assert_eq!(t.row_count(), k + 2);
    assert_eq!(t.rights_of(1), rights);
    assert_eq!(t.lefts_of(10), lefts);
    assert_eq!(t.pairs(), pairs);
    assert_eq!(t.rights_of(1), vec![10]);
    assert_eq!(t.lefts_of(10), vec![1]);
    assert_eq!(t.pairs().iter().filter(|p| **p == (1, 10)).count(), 1);
}

#[test]
fn link_then_unlink_restores_every_view() {
    let mut t = LinkTable::new();
    t.link(1, 11);
    t.link(2, 10);
    let (pairs, rights, lefts) = (t.pairs(), t.rights_of(1), t.lefts_of(10));
    t.link(1, 10);
    assert!(t.unlink(1, 10));
    assert_eq!(t.pairs(), pairs);
    assert_eq!(t.rights_of(1), rights);
    assert_eq!(t.lefts_of(10), lefts);
    let n = t.row_count();
    assert!(!t.unlink(1, 10));
    assert_eq!(t.row_count(), n);
}

#[test]
fn link_views_agree() {
    let mut t = LinkTable::new();
    t.link(1, 10);
    t.link(1, 11);
    t.link(2, 10);
    t.unlink(1, 11);
    t.link(3, 12);
    for (l, r) in [(1u128, 10u128), (1, 11), (2, 10), (3, 12), (2, 12)] {
        let in_pairs = t.pairs().contains(&(l, r));
        assert_eq!(in_pairs, t.rights_of(l).contains(&r));
        assert_eq!(in_pairs, t.lefts_of(r).contains(&l));
    }
    assert_eq!(t.pairs_prefix(t.row_count()), t.pairs());
}

#[test]
fn unique_lookup_finds_one_user() {
    let mut t: Table<User> = Table::new();
    t.insert(user(1, "a@x.com")).unwrap();
    t.insert(user(2, "b@x.com")).unwrap();
    t.update(1, user(1, "a@x.com")).unwrap().unwrap();
    assert_eq!(t.find_by_email("a@x.com"), vec![2]);
    assert_eq!(t.find_by_email("b@x.com"), vec![1]);
    assert_eq!(t.find_by_email("z@x.com"), Vec::<usize>::new());
}

#[test]
fn snapshot_reads_survive_later_writes() {
    let mut t: Table<User> = Table::new();
    t.insert(user(1, "a@x.com")).unwrap();
    t.insert(user(2, "b@x.com")).unwrap();
    let snap = t.row_count();
    let before = (t.get_at(snap, 1), t.get_at(snap, 2), t.get_at(snap, 3));
    t.update(1, user(1, "c@x.com")).unwrap().unwrap();
    assert!(t.delete(2).is_some());
    t.insert(user(3, "d@x.com")).unwrap();
    assert_eq!((t.get_at(snap, 1), t.get_at(snap, 2), t.get_at(snap, 3)), before);
    assert_eq!(before, (Some(0), Some(1), None));
    assert_eq!(t.live_row(1), Some(2));
    assert_eq!(t.live_row(2), None);
}

#[test]
fn full_scan_reads_all_records() {
    let mut t: Table<User> = Table::new();
    for i in 0..6u128 {
        t.insert(user(i, &format!("u{i}@x.com"))).unwrap();
    }
    t.update(1, user(1, "v1@x.com")).unwrap().unwrap();
    assert!(t.delete(3).is_some());
    assert_eq!(t.scan_rows(None), t.live_rows());
    assert_eq!(t.scan_rows(None), vec![0, 2, 4, 5, 6]);
}

#[test]
fn only_conflicts_are_retried() {
    assert!(matches!(after_attempt(AttemptOutcome::Conflicted), AttemptNext::TryAgain));
    assert!(matches!(after_attempt(AttemptOutcome::BodyFailed), AttemptNext::Finish));
    assert!(matches!(after_attempt(AttemptOutcome::Committed), AttemptNext::Finish));
}

#[test]
fn write_set_keys_separate_parts() {
    let a = ws_key(&vec![b"ab".to_vec(), b"c".to_vec()]);
    let b = ws_key(&vec![b"a".to_vec(), b"bc".to_vec()]);
    assert_ne!(a, b);
    assert_eq!(a.len(), 2 + 1 + 8);
    assert_eq!(a, vec![2, 0, 0, 0, b'a', b'b', 1, 0, 0, 0, b'c']);
    assert_eq!(ws_key(&vec![b"x".to_vec()]), ws_key(&vec![b"x".to_vec()]));
}

#[test]
fn dataset_ids_unique_and_views_by_position() {
    let d1 = dataset(3, 10);
    let d2 = dataset(5, 4);
    for i in 0..4 {
        assert_eq!(d1.posts[i].views, d2.posts[i].views);
    }
    let mut ids: Vec<[u8; 16]> = Vec::new();
    ids.extend(d1.users.iter().map(|u| u.id));
    ids.extend(d1.posts.iter().map(|p| p.id));
    ids.extend(d1.tags.iter().map(|t| t.id));
    let n = ids.len();
    ids.sort();
    ids.dedup();
    assert_eq!(ids.len(), n);
    let d3 = dataset(3, 10);
    assert!(d1.posts.iter().zip(d3.posts.iter()).all(|(a, b)| a.id == b.id && a.views == b.views && a.author == b.author));
}
