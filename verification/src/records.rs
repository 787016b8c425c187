use vstd::prelude::*;
use crate::errors::ValidationError;
use crate::keys::{str_key, u64_key, id_key, str_key_spec, u64_key_spec, id_key_spec};
use crate::timestamps::{floored, floor_to_quantum, check_timestamp, timestamp_message, is_constraint,
    RFC3339_MIN_US, RFC3339_MAX_US, WRITE_QUANTUM_US};
use crate::validate::{email_ok, valid_email, length_between};

verus! {

/// What the storage needs of a model's record: its id, its keys under the
/// model's hash indexes, its ordered value, the write path's normalisation and
/// its constraints.
pub trait Record: Sized {
    spec fn spec_id(&self) -> u128;
    spec fn spec_n_keys() -> nat;
    spec fn spec_keys(&self) -> Seq<Seq<char>>;
    spec fn spec_ord(&self) -> u64;
    spec fn spec_unique(f: int) -> bool;
    spec fn spec_has_ordered() -> bool;
    /// The normalisation cannot overflow.
    spec fn spec_writable(&self) -> bool;
    /// The record as the write path stores it.
    spec fn spec_normalized(&self) -> Self;
    /// The record meets its model's constraints.
    spec fn spec_valid(&self) -> bool;
    /// `e` is the error an invalid record is refused with.
    spec fn spec_rejects(&self, e: ValidationError) -> bool;
    /// `e` is the uniqueness error of hash index `f`.
    spec fn spec_unique_error(f: int, e: ValidationError) -> bool;
    /// The model's name.
    spec fn spec_model() -> Seq<char>;
    /// The name of the field hash index `f` covers.
    spec fn spec_field(f: int) -> Seq<char>;

    fn model_name() -> (s: &'static str)
        ensures
            s@ == Self::spec_model(),
    ;

    fn index_field(f: usize) -> (s: &'static str)
        ensures
            s@ == Self::spec_field(f as int),
    ;

    fn record_id(&self) -> (r: u128)
        ensures
            r == self.spec_id(),
    ;

    fn n_keys() -> (n: usize)
        ensures
            n == Self::spec_n_keys(),
            n <= 2,
    ;

    fn unique_index(f: usize) -> (u: bool)
        ensures
            u == Self::spec_unique(f as int),
    ;

    fn has_ordered() -> (b: bool)
        ensures
            b == Self::spec_has_ordered(),
    ;

    fn index_keys(&self) -> (k: Vec<String>)
        ensures
            k@.len() == Self::spec_n_keys(),
            self.spec_keys().len() == Self::spec_n_keys(),
            forall|i: int| 0 <= i < k@.len() ==> (#[trigger] k@[i])@ == self.spec_keys()[i],
    ;

    fn ord_value(&self) -> (v: u64)
        ensures
            v == self.spec_ord(),
    ;

    fn normalize(self) -> (r: Self)
        requires
            self.spec_writable(),
        ensures
            r == self.spec_normalized(),
    ;

    fn check(&self) -> (r: Result<(), ValidationError>)
        ensures
            match r {
                Ok(()) => self.spec_valid(),
                Err(e) => !self.spec_valid() && self.spec_rejects(e),
            },
    ;

    fn unique_error(f: usize) -> (e: ValidationError)
        ensures
            Self::spec_unique_error(f as int, e),
    ;
}

/// A user record: ids and timestamps as plain values.
#[derive(Clone, Debug)]
pub struct User {
    pub id: u128,
    pub name: String,
    pub email: String,
    pub created_at: i64,
}

/// A post record.
#[derive(Clone, Debug)]
pub struct Post {
    pub id: u128,
    pub title: String,
    pub views: u64,
    pub published: bool,
    pub author: u128,
    pub created_at: i64,
}

/// A tag record.
#[derive(Clone, Debug)]
pub struct Tag {
    pub id: u128,
    pub name: String,
}

/// A document record.
#[derive(Clone, Debug)]
pub struct Doc {
    pub id: u128,
    pub seq: u64,
    pub kind: u32,
    pub body_a: String,
    pub body_b: String,
    pub body_c: String,
    pub body_d: String,
}

/// A metric sample. Its four measurements are carried as the bit patterns
/// of their IEEE 754 doubles, which the storage keeps and hands back
/// unchanged; nothing here computes with them.
#[derive(Clone, Debug)]
pub struct Metric {
    pub id: u128,
    pub recorded_at: i64,
    pub device_id: u64,
    pub sample_seq: u64,
    pub region: u32,
    pub cpu_pct_bits: u64,
    pub mem_pct_bits: u64,
    pub disk_pct_bits: u64,
    pub net_rx_bytes: u64,
    pub net_tx_bytes: u64,
    pub req_count: u64,
    pub err_count: u64,
    pub p50_micros: u32,
    pub p95_micros: u32,
    pub p99_micros: u32,
    pub queue_depth: u32,
    pub open_conns: u32,
    pub gc_pause_micros: u32,
    pub uptime_secs: i64,
    pub temp_celsius_bits: u64,
    pub throttled: bool,
    pub healthy: bool,
}

/// `e` is the uniqueness error of `model.field`.
pub open spec fn is_unique_error(e: ValidationError, model: Seq<char>, field: Seq<char>) -> bool {
    e matches ValidationError::Unique { model: m, field: f } && m@ == model && f@ == field
}

/// The constraint check of a user: timestamp range, then name length, then
/// the email rule.
pub open spec fn user_rejects(u: User, e: ValidationError) -> bool {
    if !(RFC3339_MIN_US <= u.created_at <= RFC3339_MAX_US) {
        is_constraint(e, "User"@, "created_at"@, "timestamp_range"@, timestamp_message(u.created_at))
    } else if !length_between(u.name@, 1, 100) {
        is_constraint(e, "User"@, "name"@, "length"@, "length must be between 1 and 100"@)
    } else {
        is_constraint(e, "User"@, "email"@, "email"@, "must be a valid email address"@)
    }
}

/// Checks a user's constraints in order: the name, then the email.
pub fn validate_user(u: &User) -> (r: Result<(), ValidationError>)
    ensures
        match r {
            Ok(()) => length_between(u.name@, 1, 100) && valid_email(u.email@),
            Err(e) => !(length_between(u.name@, 1, 100) && valid_email(u.email@))
                && (!length_between(u.name@, 1, 100) ==> is_constraint(e, "User"@, "name"@, "length"@, "length must be between 1 and 100"@))
                && (length_between(u.name@, 1, 100) ==> is_constraint(e, "User"@, "email"@, "email"@, "must be a valid email address"@)),
        },
{
    let n = u.name.as_str().unicode_len();
    if n < 1 || n > 100 {
        return Err(ValidationError::Constraint {
            model: "User",
            field: "name",
            rule: "length",
            message: String::from_str("length must be between 1 and 100"),
        });
    }
    if !email_ok(u.email.as_str()) {
        return Err(ValidationError::Constraint {
            model: "User",
            field: "email",
            rule: "email",
            message: String::from_str("must be a valid email address"),
        });
    }
    Ok(())
}

/// Checks a post's constraints.
pub fn validate_post(p: &Post) -> (r: Result<(), ValidationError>)
    ensures
        match r {
            Ok(()) => length_between(p.title@, 1, 200),
            Err(e) => !length_between(p.title@, 1, 200)
                && is_constraint(e, "Post"@, "title"@, "length"@, "length must be between 1 and 200"@),
        },
{
    let n = p.title.as_str().unicode_len();
    if n < 1 || n > 200 {
        return Err(ValidationError::Constraint {
            model: "Post",
            field: "title",
            rule: "length",
            message: String::from_str("length must be between 1 and 200"),
        });
    }
    Ok(())
}

/// Checks a tag's constraints.
pub fn validate_tag(t: &Tag) -> (r: Result<(), ValidationError>)
    ensures
        match r {
            Ok(()) => length_between(t.name@, 1, 50),
            Err(e) => !length_between(t.name@, 1, 50)
                && is_constraint(e, "Tag"@, "name"@, "length"@, "length must be between 1 and 50"@),
        },
{
    let n = t.name.as_str().unicode_len();
    if n < 1 || n > 50 {
        return Err(ValidationError::Constraint {
            model: "Tag",
            field: "name",
            rule: "length",
            message: String::from_str("length must be between 1 and 50"),
        });
    }
    Ok(())
}

/// A document has no constraints.
pub fn validate_doc(d: &Doc) -> (r: Result<(), ValidationError>)
    ensures
        r is Ok,
{
    Ok(())
}

impl Record for User {
    open spec fn spec_model() -> Seq<char> {
        "User"@
    }

    open spec fn spec_field(f: int) -> Seq<char> {
        if f == 0 { "email"@ } else { ""@ }
    }

    fn model_name() -> (s: &'static str) {
        "User"
    }

    fn index_field(f: usize) -> (s: &'static str) {
        if f == 0 { "email" } else { "" }
    }

    open spec fn spec_id(&self) -> u128 {
        self.id
    }

    open spec fn spec_n_keys() -> nat {
        1
    }

    open spec fn spec_keys(&self) -> Seq<Seq<char>> {
        seq![str_key_spec(self.email@)]
    }

    open spec fn spec_ord(&self) -> u64 {
        0
    }

    open spec fn spec_unique(f: int) -> bool {
        f == 0
    }

    open spec fn spec_has_ordered() -> bool {
        false
    }

    open spec fn spec_writable(&self) -> bool {
        i64::MIN <= floored(self.created_at, WRITE_QUANTUM_US)
    }

    open spec fn spec_normalized(&self) -> Self {
        User { created_at: floored(self.created_at, WRITE_QUANTUM_US) as i64, ..*self }
    }

    open spec fn spec_valid(&self) -> bool {
        &&& RFC3339_MIN_US <= self.created_at <= RFC3339_MAX_US
        &&& length_between(self.name@, 1, 100)
        &&& valid_email(self.email@)
    }

    open spec fn spec_rejects(&self, e: ValidationError) -> bool {
        user_rejects(*self, e)
    }

    open spec fn spec_unique_error(f: int, e: ValidationError) -> bool {
        is_unique_error(e, "User"@, "email"@)
    }

    fn record_id(&self) -> (r: u128) {
        self.id
    }

    fn n_keys() -> (n: usize) {
        1
    }

    fn unique_index(f: usize) -> (u: bool) {
        f == 0
    }

    fn has_ordered() -> (b: bool) {
        false
    }

    fn index_keys(&self) -> (k: Vec<String>) {
        let mut k: Vec<String> = Vec::new();
        k.push(str_key(self.email.as_str()));
        k
    }

    fn ord_value(&self) -> (v: u64) {
        0
    }

    fn normalize(self) -> (r: Self) {
        let created_at = floor_to_quantum(self.created_at, WRITE_QUANTUM_US);
        User { created_at, ..self }
    }

    fn check(&self) -> (r: Result<(), ValidationError>) {
        check_timestamp("User", "created_at", self.created_at)?;
        validate_user(self)
    }

    fn unique_error(f: usize) -> (e: ValidationError) {
        ValidationError::Unique { model: "User", field: "email" }
    }
}

impl Record for Post {
    open spec fn spec_model() -> Seq<char> {
        "Post"@
    }

    open spec fn spec_field(f: int) -> Seq<char> {
        if f == 0 { "views"@ } else { "author"@ }
    }

    fn model_name() -> (s: &'static str) {
        "Post"
    }

    fn index_field(f: usize) -> (s: &'static str) {
        if f == 0 { "views" } else { "author" }
    }

    open spec fn spec_id(&self) -> u128 {
        self.id
    }

    open spec fn spec_n_keys() -> nat {
        2
    }

    open spec fn spec_keys(&self) -> Seq<Seq<char>> {
        seq![u64_key_spec(self.views), id_key_spec(self.author)]
    }

    open spec fn spec_ord(&self) -> u64 {
        self.views
    }

    open spec fn spec_unique(f: int) -> bool {
        false
    }

    open spec fn spec_has_ordered() -> bool {
        true
    }

    open spec fn spec_writable(&self) -> bool {
        i64::MIN <= floored(self.created_at, WRITE_QUANTUM_US)
    }

    open spec fn spec_normalized(&self) -> Self {
        Post { created_at: floored(self.created_at, WRITE_QUANTUM_US) as i64, ..*self }
    }

    open spec fn spec_valid(&self) -> bool {
        &&& RFC3339_MIN_US <= self.created_at <= RFC3339_MAX_US
        &&& length_between(self.title@, 1, 200)
    }

    open spec fn spec_rejects(&self, e: ValidationError) -> bool {
        if !(RFC3339_MIN_US <= self.created_at <= RFC3339_MAX_US) {
            is_constraint(e, "Post"@, "created_at"@, "timestamp_range"@, timestamp_message(self.created_at))
        } else {
            is_constraint(e, "Post"@, "title"@, "length"@, "length must be between 1 and 200"@)
        }
    }

    open spec fn spec_unique_error(f: int, e: ValidationError) -> bool {
        is_unique_error(e, "Post"@, Self::spec_field(f))
    }

    fn record_id(&self) -> (r: u128) {
        self.id
    }

    fn n_keys() -> (n: usize) {
        2
    }

    fn unique_index(f: usize) -> (u: bool) {
        false
    }

    fn has_ordered() -> (b: bool) {
        true
    }

    fn index_keys(&self) -> (k: Vec<String>) {
        let mut k: Vec<String> = Vec::new();
        k.push(u64_key(self.views));
        k.push(id_key(self.author));
        k
    }

    fn ord_value(&self) -> (v: u64) {
        self.views
    }

    fn normalize(self) -> (r: Self) {
        let created_at = floor_to_quantum(self.created_at, WRITE_QUANTUM_US);
        Post { created_at, ..self }
    }

    fn check(&self) -> (r: Result<(), ValidationError>) {
        check_timestamp("Post", "created_at", self.created_at)?;
        validate_post(self)
    }

    fn unique_error(f: usize) -> (e: ValidationError) {
        ValidationError::Unique { model: "Post", field: Self::index_field(f) }
    }
}

impl Record for Tag {
    open spec fn spec_model() -> Seq<char> {
        "Tag"@
    }

    open spec fn spec_field(f: int) -> Seq<char> {
        "name"@
    }

    fn model_name() -> (s: &'static str) {
        "Tag"
    }

    fn index_field(f: usize) -> (s: &'static str) {
        "name"
    }

    open spec fn spec_id(&self) -> u128 {
        self.id
    }

    open spec fn spec_n_keys() -> nat {
        1
    }

    open spec fn spec_keys(&self) -> Seq<Seq<char>> {
        seq![str_key_spec(self.name@)]
    }

    open spec fn spec_ord(&self) -> u64 {
        0
    }

    open spec fn spec_unique(f: int) -> bool {
        f == 0
    }

    open spec fn spec_has_ordered() -> bool {
        false
    }

    open spec fn spec_writable(&self) -> bool {
        true
    }

    open spec fn spec_normalized(&self) -> Self {
        *self
    }

    open spec fn spec_valid(&self) -> bool {
        length_between(self.name@, 1, 50)
    }

    open spec fn spec_rejects(&self, e: ValidationError) -> bool {
        is_constraint(e, "Tag"@, "name"@, "length"@, "length must be between 1 and 50"@)
    }

    open spec fn spec_unique_error(f: int, e: ValidationError) -> bool {
        is_unique_error(e, "Tag"@, "name"@)
    }

    fn record_id(&self) -> (r: u128) {
        self.id
    }

    fn n_keys() -> (n: usize) {
        1
    }

    fn unique_index(f: usize) -> (u: bool) {
        f == 0
    }

    fn has_ordered() -> (b: bool) {
        false
    }

    fn index_keys(&self) -> (k: Vec<String>) {
        let mut k: Vec<String> = Vec::new();
        k.push(str_key(self.name.as_str()));
        k
    }

    fn ord_value(&self) -> (v: u64) {
        0
    }

    fn normalize(self) -> (r: Self) {
        self
    }

    fn check(&self) -> (r: Result<(), ValidationError>) {
        validate_tag(self)
    }

    fn unique_error(f: usize) -> (e: ValidationError) {
        ValidationError::Unique { model: "Tag", field: "name" }
    }
}

impl Record for Doc {
    open spec fn spec_model() -> Seq<char> {
        "Doc"@
    }

    open spec fn spec_field(f: int) -> Seq<char> {
        ""@
    }

    fn model_name() -> (s: &'static str) {
        "Doc"
    }

    fn index_field(f: usize) -> (s: &'static str) {
        ""
    }

    open spec fn spec_id(&self) -> u128 {
        self.id
    }

    open spec fn spec_n_keys() -> nat {
        0
    }

    open spec fn spec_keys(&self) -> Seq<Seq<char>> {
        Seq::empty()
    }

    open spec fn spec_ord(&self) -> u64 {
        0
    }

    open spec fn spec_unique(f: int) -> bool {
        false
    }

    open spec fn spec_has_ordered() -> bool {
        false
    }

    open spec fn spec_writable(&self) -> bool {
        true
    }

    open spec fn spec_normalized(&self) -> Self {
        *self
    }

    open spec fn spec_valid(&self) -> bool {
        true
    }

    open spec fn spec_rejects(&self, e: ValidationError) -> bool {
        false
    }

    open spec fn spec_unique_error(f: int, e: ValidationError) -> bool {
        is_unique_error(e, "Doc"@, ""@)
    }

    fn record_id(&self) -> (r: u128) {
        self.id
    }

    fn n_keys() -> (n: usize) {
        0
    }

    fn unique_index(f: usize) -> (u: bool) {
        false
    }

    fn has_ordered() -> (b: bool) {
        false
    }

    fn index_keys(&self) -> (k: Vec<String>) {
        Vec::new()
    }

    fn ord_value(&self) -> (v: u64) {
        0
    }

    fn normalize(self) -> (r: Self) {
        self
    }

    fn check(&self) -> (r: Result<(), ValidationError>) {
        validate_doc(self)
    }

    fn unique_error(f: usize) -> (e: ValidationError) {
        ValidationError::Unique { model: "Doc", field: "" }
    }
}

/// A metric has no constraints of its own.
pub fn validate_metric(m: &Metric) -> (r: Result<(), ValidationError>)
    ensures
        r is Ok,
{
    Ok(())
}

impl Record for Metric {
    open spec fn spec_model() -> Seq<char> {
        "Metric"@
    }

    open spec fn spec_field(f: int) -> Seq<char> {
        "device_id"@
    }

    fn model_name() -> (s: &'static str) {
        "Metric"
    }

    fn index_field(f: usize) -> (s: &'static str) {
        "device_id"
    }

    open spec fn spec_id(&self) -> u128 {
        self.id
    }

    open spec fn spec_n_keys() -> nat {
        1
    }

    open spec fn spec_keys(&self) -> Seq<Seq<char>> {
        seq![u64_key_spec(self.device_id)]
    }

    open spec fn spec_ord(&self) -> u64 {
        self.device_id
    }

    open spec fn spec_unique(f: int) -> bool {
        false
    }

    open spec fn spec_has_ordered() -> bool {
        true
    }

    open spec fn spec_writable(&self) -> bool {
        i64::MIN <= floored(self.recorded_at, WRITE_QUANTUM_US)
    }

    open spec fn spec_normalized(&self) -> Self {
        Metric { recorded_at: floored(self.recorded_at, WRITE_QUANTUM_US) as i64, ..*self }
    }

    open spec fn spec_valid(&self) -> bool {
        RFC3339_MIN_US <= self.recorded_at <= RFC3339_MAX_US
    }

    open spec fn spec_rejects(&self, e: ValidationError) -> bool {
        is_constraint(e, "Metric"@, "recorded_at"@, "timestamp_range"@, timestamp_message(self.recorded_at))
    }

    open spec fn spec_unique_error(f: int, e: ValidationError) -> bool {
        is_unique_error(e, "Metric"@, "device_id"@)
    }

    fn record_id(&self) -> (r: u128) {
        self.id
    }

    fn n_keys() -> (n: usize) {
        1
    }

    fn unique_index(f: usize) -> (u: bool) {
        false
    }

    fn has_ordered() -> (b: bool) {
        true
    }

    fn index_keys(&self) -> (k: Vec<String>) {
        let mut k: Vec<String> = Vec::new();
        k.push(u64_key(self.device_id));
        k
    }

    fn ord_value(&self) -> (v: u64) {
        self.device_id
    }

    fn normalize(self) -> (r: Self) {
        let recorded_at = floor_to_quantum(self.recorded_at, WRITE_QUANTUM_US);
        Metric { recorded_at, ..self }
    }

    fn check(&self) -> (r: Result<(), ValidationError>) {
        check_timestamp("Metric", "recorded_at", self.recorded_at)?;
        validate_metric(self)
    }

    fn unique_error(f: usize) -> (e: ValidationError) {
        ValidationError::Unique { model: "Metric", field: "device_id" }
    }
}

} // verus!
