use forgedb_db::concurrent::{ConcurrentTxHandle, Seen, Write};
use forgedb_db::coordination::{needs_refresh, TurnAction, TurnReply, TurnWait};
use forgedb_db::db::{ChangeKind, Database};
use forgedb_db::errors::{TxError, ValidationError};
use forgedb_db::records::{Post, Tag, User};

fn user(id: u128, email: &str) -> User {
    User { id, name: "n".to_string(), email: email.to_string(), created_at: 5_000 }
}

fn post(id: u128, author: u128) -> Post {
    Post { id, title: "a title".to_string(), views: 3, published: true, author, created_at: 7_000 }
}

fn committed_user(db: &mut Database, id: u128, email: &str) {
    db.create_user(user(id, email)).unwrap();
}

#[test]
fn concurrent_reads_see_own_writes_over_snapshot() {
    let mut db = Database::new();
    committed_user(&mut db, 1, "a@x.com");
    let mut tx = ConcurrentTxHandle::begin(db.snapshot());
    assert_eq!(tx.get_user(&db, 1), Some(Seen::Committed(0)));
    assert_eq!(tx.create_user_with(&db, user(0, "b@x.com"), 42, 0).unwrap(), 42);
    assert_eq!(tx.get_user(&db, 42), Some(Seen::Buffered(0)));
    assert_eq!(tx.update_user(&db, 1, user(1, "c@x.com")).unwrap(), true);
    assert_eq!(tx.get_user(&db, 1), Some(Seen::Buffered(1)));
    assert!(tx.delete_user(&db, 42, user(42, "b@x.com")));
    assert_eq!(tx.get_user(&db, 42), None);
    assert!(!tx.delete_user(&db, 42, user(42, "b@x.com")));
    assert_eq!(tx.update_user(&db, 77, user(77, "d@x.com")).unwrap(), false);
    let mut all = tx.all_user(&db);
    all.sort_by_key(|s| match s {
        Seen::Buffered(i) => *i,
        Seen::Committed(r) => 1000 + *r,
    });
    assert_eq!(all, vec![Seen::Buffered(1)]);
    assert_eq!(tx.write_count(), 3);
    assert!(matches!(tx.write_at(2), Write::User(ChangeKind::Deleted, 42, _)));
}

#[test]
fn concurrent_snapshot_ignores_later_commits() {
    let mut db = Database::new();
    committed_user(&mut db, 1, "a@x.com");
    let tx = ConcurrentTxHandle::begin(db.snapshot());
    committed_user(&mut db, 2, "b@x.com");
    assert_eq!(tx.get_user(&db, 2), None);
    assert_eq!(tx.all_user(&db), vec![Seen::Committed(0)]);
}

#[test]
fn concurrent_unique_keys_checked_against_commits_and_claims() {
    let mut db = Database::new();
    committed_user(&mut db, 1, "a@x.com");
    let mut tx = ConcurrentTxHandle::begin(db.snapshot());
    let e = tx.create_user_with(&db, user(2, "a@x.com"), 0, 0).unwrap_err();
    assert!(matches!(e, TxError::Validation(ValidationError::Unique { model: "User", field: "email" })));
    tx.create_user_with(&db, user(3, "z@x.com"), 0, 0).unwrap();
    let e = tx.create_user_with(&db, user(4, "z@x.com"), 0, 0).unwrap_err();
    assert!(matches!(e, TxError::Validation(ValidationError::Unique { .. })));
    assert_eq!(tx.update_user(&db, 1, user(1, "a@x.com")).unwrap(), true);
    let e = tx.create_tag_with(&db, Tag { id: 9, name: String::new() }, 0).unwrap_err();
    assert!(matches!(e, TxError::Validation(_)));
    assert_eq!(tx.write_count(), 2);
    let ws = tx.write_set();
    assert_eq!(ws.len(), 4);
    assert_eq!(&ws[0][0..5], &[1, 0, 0, 0, b'r']);
    assert_eq!(&ws[2][0..5], &[1, 0, 0, 0, b'u']);
}

#[test]
fn concurrent_posts_need_a_visible_author() {
    let db = Database::new();
    let mut tx = ConcurrentTxHandle::begin(db.snapshot());
    let e = tx.create_post_with(&db, post(5, 1), 0, 0).unwrap_err();
    assert!(matches!(e, TxError::Validation(ValidationError::DanglingReference { model: "Post", field: "author", target: "User" })));
    tx.create_user_with(&db, user(1, "a@x.com"), 0, 0).unwrap();
    assert_eq!(tx.create_post_with(&db, post(5, 1), 0, 0).unwrap(), 5);
    assert_eq!(tx.get_post(&db, 5), Some(Seen::Buffered(1)));
}

#[test]
fn concurrent_apply_stages_then_commits() {
    let mut db = Database::new();
    committed_user(&mut db, 1, "a@x.com");
    let mut tx = ConcurrentTxHandle::begin(db.snapshot());
    tx.create_user_with(&db, user(2, "b@x.com"), 0, 0).unwrap();
    tx.create_post_with(&db, post(7, 2), 0, 0).unwrap();
    assert!(tx.delete_user(&db, 1, user(1, "a@x.com")));
    let (staged, rows) = tx.apply(&mut db);
    assert_eq!(rows, vec![("User", 1), ("Post", 0), ("User", 2)]);
    assert_eq!(staged.journal(&db), vec![("Post", 1), ("User", 3)]);
    assert_eq!(db.user.live_row(2), None);
    staged.commit(&mut db);
    assert_eq!(db.user.live_row(2), Some(1));
    assert_eq!(db.user.live_row(1), None);
    assert_eq!(db.post.live_row(7), Some(0));
}

#[test]
fn coordinated_turns_back_off_then_give_up() {
    let mut w = TurnWait::new();
    assert_eq!(w.on_reply(TurnReply::Busy), TurnAction::Wait(20));
    assert_eq!(w.on_reply(TurnReply::Busy), TurnAction::Wait(40));
    for _ in 0..3 {
        let _ = w.on_reply(TurnReply::Busy);
    }
    assert_eq!(w.busy_retries, 5);
    assert_eq!(w.on_reply(TurnReply::Busy), TurnAction::Retry);
    assert_eq!(w.on_reply(TurnReply::Granted), TurnAction::Commit);
    assert_eq!(w.on_reply(TurnReply::Conflict), TurnAction::Retry);
    assert_eq!(w.on_reply(TurnReply::Failed), TurnAction::Fail);
    assert!(needs_refresh(3, 2));
    assert!(!needs_refresh(2, 2));
}

#[test]
fn concurrent_write_set_names_record_ids() {
    let db = Database::new();
    let mut tx = ConcurrentTxHandle::begin(db.snapshot());
    let id: u128 = 0x0123_4567_89ab_cdef_0123_4567_89ab_cdef;
    tx.create_user_with(&db, user(id, "a@x.com"), 0, 0).unwrap();
    let ws = tx.write_set();
    let json = b"\"01234567-89ab-cdef-0123-456789abcdef\"";
    let mut expected: Vec<u8> = vec![1, 0, 0, 0, b'r', 4, 0, 0, 0];
    expected.extend_from_slice(b"User");
    expected.extend_from_slice(&[json.len() as u8, 0, 0, 0]);
    expected.extend_from_slice(json);
    assert_eq!(ws[0], expected);
    let mut unique: Vec<u8> = vec![1, 0, 0, 0, b'u', 4, 0, 0, 0];
    unique.extend_from_slice(b"User");
    unique.extend_from_slice(&[5, 0, 0, 0]);
    unique.extend_from_slice(b"email");
    unique.extend_from_slice(&[8, 0, 0, 0]);
    unique.extend_from_slice("\u{1}a@x.com".as_bytes());
    assert_eq!(ws[1], unique);
}
