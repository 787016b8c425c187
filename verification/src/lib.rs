//! A verified core for a schema-tailored columnar application database:
//! the error model, record validation, the append-only version table that
//! backs every model, secondary indexes, paging, WAL framing, link tables,
//! transaction bookkeeping and the benchmark dataset generator.
pub mod errors;
pub mod text;
pub mod bench;
pub mod versions;
pub mod keyindex;
pub mod ordered;
pub mod model;
pub mod ids;
pub mod keys;
pub mod maintenance;
pub mod timestamps;
pub mod validate;
pub mod records;
pub mod table;
pub mod txn;
pub mod paging;
pub mod wal;
pub mod links;
pub mod db;
pub mod tx;
pub mod concurrent;
pub mod queries;
pub mod relations;
pub mod coordination;
pub mod journal;
