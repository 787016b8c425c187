use vstd::prelude::*;
use crate::errors::ValidationError;
use crate::text::{signed_decimal, push_signed_decimal};

verus! {

/// The first instant RFC 3339 can name (0000-01-01T00:00:00Z), in
/// microseconds since the epoch.
pub const RFC3339_MIN_US: i64 = -62_167_219_200_000_000;

/// The last instant RFC 3339 can name (9999-12-31T23:59:59.999999Z).
pub const RFC3339_MAX_US: i64 = 253_402_300_799_999_999;

/// The write path's timestamp quantum: one millisecond.
pub const WRITE_QUANTUM_US: i64 = 1000;

/// `micros` floored to a multiple of `quantum` (unchanged for a quantum of at
/// most one).
pub open spec fn floored(micros: i64, quantum: i64) -> int {
    if quantum <= 1 { micros as int } else { (micros as int / quantum as int) * quantum }
}

/// Floors a timestamp to a multiple of `quantum` microseconds.
///
/// Calls `forgedb_types::Timestamp::floor_to_micros`; trusted to floor
/// (euclidean division, then multiply) as its source does, and to leave the
/// value unchanged for a quantum of at most one.
#[verifier::external_body]
pub(crate) fn floor_to_quantum(micros: i64, quantum: i64) -> (r: i64)
    requires
        i64::MIN <= floored(micros, quantum),
    ensures
        r == floored(micros, quantum),
{
    forgedb_types::Timestamp::from_micros(micros).floor_to_micros(quantum).as_micros()
}

/// Whether a timestamp renders inside RFC 3339's year range.
///
/// Calls `forgedb_types::Timestamp::is_rfc3339_representable`; trusted to test
/// the inclusive range its source names.
#[verifier::external_body]
pub(crate) fn rfc3339_representable(micros: i64) -> (b: bool)
    ensures
        b == (RFC3339_MIN_US <= micros && micros <= RFC3339_MAX_US),
{
    forgedb_types::Timestamp::from_micros(micros).is_rfc3339_representable()
}

/// A timestamp given in whole seconds since the epoch, in microseconds.
pub fn ts_from_seconds(secs: i64) -> (micros: i64)
    requires
        i64::MIN <= secs * 1_000_000 <= i64::MAX,
    ensures
        micros == secs * 1_000_000,
{
    secs * 1_000_000
}

/// The explanation of a timestamp outside RFC 3339's range.
pub open spec fn timestamp_message(micros: i64) -> Seq<char> {
    "must be an instant RFC 3339 can name (years 0000 through 9999); the value is storable but would fail to serialize on every read"@
        + " \u{2014} got "@ + signed_decimal(micros as int) + " microseconds since the epoch"@
}

/// `e` is the constraint error with these parts.
pub open spec fn is_constraint(e: ValidationError, model: Seq<char>, field: Seq<char>, rule: Seq<char>, message: Seq<char>) -> bool {
    e matches ValidationError::Constraint { model: m, field: f, rule: r, message: msg }
        && m@ == model && f@ == field && r@ == rule && msg@ == message
}

/// The error refusing a timestamp outside RFC 3339's range.
pub fn timestamp_error(model: &'static str, field: &'static str, micros: i64) -> (e: ValidationError)
    ensures
        is_constraint(e, model@, field@, "timestamp_range"@, timestamp_message(micros)),
{
    let mut message = String::from_str(
        "must be an instant RFC 3339 can name (years 0000 through 9999); the value is storable but would fail to serialize on every read",
    );
    message.append(" \u{2014} got ");
    push_signed_decimal(&mut message, micros);
    message.append(" microseconds since the epoch");
    ValidationError::Constraint { model, field, rule: "timestamp_range", message }
}

/// Refuses a timestamp outside RFC 3339's range.
pub fn check_timestamp(model: &'static str, field: &'static str, micros: i64) -> (r: Result<(), ValidationError>)
    ensures
        r is Ok <==> RFC3339_MIN_US <= micros <= RFC3339_MAX_US,
        r matches Err(e) ==> is_constraint(e, model@, field@, "timestamp_range"@, timestamp_message(micros)),
{
    if rfc3339_representable(micros) {
        Ok(())
    } else {
        Err(timestamp_error(model, field, micros))
    }
}

} // verus!
