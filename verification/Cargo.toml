[package]
name = "forgedb_db"
version = "0.1.0"
edition = "2021"
publish = false

[dependencies]
forgedb-storage = "*"
forgedb-types = "*"
forgedb-wal = "*"
forgedb-txn = "*"
forgedb-changefeed = "*"
forgedb-compaction = "*"
forgedb-coordinator = "*"
serde = { version = "1", features = ["derive"] }
serde_json = "1"
uuid = "1"
