use forgedb_db::db::Database;
use forgedb_db::errors::TxError;
use forgedb_db::keys::str_key;
use forgedb_db::records::User;
use forgedb_db::table::Table;
use forgedb_db::tx::TxHandle;

fn user(i: u128) -> User {
    User {
        id: 0xC000 + i,
        name: format!("u{i}"),
        email: format!("u{i}@x.com"),
        created_at: 1_000 + i as i64,
    }
}

/// Rebuilds the user table from the rows a reopen reads back.
fn reopen(rows: &[User]) -> Table<User> {
    let mut t: Table<User> = Table::new();
    for u in rows {
        t.load_row(u.id, false, u);
    }
    t.reindex_committed();
    t
}

#[test]
fn group_commit_rows_survive_reopen() {
    let mut db = Database::new();
    let mut stored: Vec<User> = Vec::new();
    {
        let mut tx = TxHandle::begin();
        for i in 0..500u128 {
            let w = tx.create_user(&mut db, user(i)).expect("commit");
            stored.push(w.record);
        }
        let _journal = tx.journal(&db);
        tx.commit(&mut db);
        assert_eq!(db.user.row_count(), 500);
        assert!(db.user.live_row(0xC000 + 250).is_some());
    }
    {
        let t = reopen(&stored);
        assert_eq!(t.row_count(), 500, "committed rows durable across reopen");
        for i in 0..500u128 {
            let r = t.live_row(0xC000 + i).expect("row present");
            assert_eq!(stored[r].email, format!("u{i}@x.com"));
            assert_eq!(t.id_at(r), stored[r].id);
            let key = str_key(&format!("u{i}@x.com"));
            assert_eq!(t.rows_for_key(0, &key), vec![r]);
        }
    }
}

#[test]
fn rolled_back_transaction_leaves_nothing() {
    let mut db = Database::new();
    let mut stored: Vec<User> = Vec::new();
    {
        let mut tx = TxHandle::begin();
        let mut ok: Result<(), TxError> = Ok(());
        for i in 0..10u128 {
            match tx.create_user(&mut db, user(i)) {
                Ok(w) => stored.push(w.record),
                Err(e) => ok = Err(e),
            }
        }
        ok.expect("commit baseline");
        tx.commit(&mut db);

        let mut tx = TxHandle::begin();
        for i in 10..100u128 {
            let _ = tx.create_user(&mut db, user(i));
        }
        let failed: Result<(), TxError> = Err(TxError::Conflict);
        if failed.is_err() {
            tx.rollback(&mut db);
        }
        assert_eq!(db.user.row_count(), 10, "rollback discards staged rows");
    }
    {
        let t = reopen(&stored);
        assert_eq!(t.row_count(), 10, "only committed rows recovered");
    }
}
