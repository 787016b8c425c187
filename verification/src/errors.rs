use vstd::prelude::*;

verus! {

/// Why a write was refused by a model's constraints.
#[derive(Debug, Clone, PartialEq)]
pub enum ValidationError {
    Unique { model: &'static str, field: &'static str },
    DanglingReference { model: &'static str, field: &'static str, target: &'static str },
    ReferencedByChildren { model: &'static str, field: &'static str },
    Constraint { model: &'static str, field: &'static str, rule: &'static str, message: String },
    SequenceExhausted { model: &'static str, field: &'static str },
}

/// The HTTP status a validation failure maps to.
pub open spec fn validation_status(e: ValidationError) -> u16 {
    match e {
        ValidationError::Unique { .. } => 409,
        ValidationError::DanglingReference { .. } => 409,
        ValidationError::ReferencedByChildren { .. } => 409,
        ValidationError::Constraint { .. } => 422,
        ValidationError::SequenceExhausted { .. } => 500,
    }
}

impl ValidationError {
    pub fn status_code(&self) -> (code: u16)
        ensures
            code == validation_status(*self),
    {
        match self {
            ValidationError::Unique { .. }
            | ValidationError::DanglingReference { .. }
            | ValidationError::ReferencedByChildren { .. } => 409,
            ValidationError::Constraint { .. } => 422,
            ValidationError::SequenceExhausted { .. } => 500,
        }
    }
}

/// Why a replicated frame could not be applied.
#[derive(Debug)]
pub enum ApplyError {
    Decode(String),
    Validation(ValidationError),
}

impl From<ValidationError> for ApplyError {
    fn from(e: ValidationError) -> (r: Self) {
        ApplyError::Validation(e)
    }
}

impl vstd::std_specs::convert::FromSpecImpl<ValidationError> for ApplyError {
    open spec fn obeys_from_spec() -> bool {
        true
    }

    open spec fn from_spec(v: ValidationError) -> ApplyError {
        ApplyError::Validation(v)
    }
}

/// Why a transaction did not commit.
#[derive(Debug)]
pub enum TxError {
    Validation(ValidationError),
    Io(String),
    Conflict,
    CoordinatorUnavailable(String),
}

/// The HTTP status a transaction failure maps to.
pub open spec fn tx_status(e: TxError) -> u16 {
    match e {
        TxError::Validation(v) => validation_status(v),
        TxError::Io(_) => 500,
        TxError::Conflict => 409,
        TxError::CoordinatorUnavailable(_) => 503,
    }
}

impl TxError {
    pub fn status_code(&self) -> (code: u16)
        ensures
            code == tx_status(*self),
    {
        match self {
            TxError::Validation(e) => e.status_code(),
            TxError::Io(_) => 500,
            TxError::Conflict => 409,
            TxError::CoordinatorUnavailable(_) => 503,
        }
    }
}

impl From<ValidationError> for TxError {
    fn from(e: ValidationError) -> (r: Self) {
        TxError::Validation(e)
    }
}

impl vstd::std_specs::convert::FromSpecImpl<ValidationError> for TxError {
    open spec fn obeys_from_spec() -> bool {
        true
    }

    open spec fn from_spec(v: ValidationError) -> TxError {
        TxError::Validation(v)
    }
}

/// The text of a validation failure.
pub open spec fn validation_text(e: ValidationError) -> Seq<char> {
    match e {
        ValidationError::Unique { model, field } =>
            "unique constraint violated on field `"@ + model@ + "."@ + field@ + "`"@,
        ValidationError::DanglingReference { model, field, target } =>
            "field `"@ + model@ + "."@ + field@ + "` references a non-existent "@ + target@,
        ValidationError::ReferencedByChildren { model, field } =>
            "cannot delete: "@ + model@ + " rows still reference it via `"@ + field@ + "` (on_delete=restrict)"@,
        ValidationError::Constraint { model, field, rule, message } =>
            "field `"@ + model@ + "."@ + field@ + "` violates `"@ + rule@ + "`: "@ + message@,
        ValidationError::SequenceExhausted { model, field } =>
            "auto-increment sequence for `"@ + model@ + "."@ + field@ + "` is exhausted"@,
    }
}

impl ValidationError {
    /// The failure as a sentence.
    pub fn describe(&self) -> (s: String)
        ensures
            s@ == validation_text(*self),
    {
        let mut s = String::new();
        match self {
            ValidationError::Unique { model, field } => {
                s.append("unique constraint violated on field `");
                s.append(model);
                s.append(".");
                s.append(field);
                s.append("`");
            },
            ValidationError::DanglingReference { model, field, target } => {
                s.append("field `");
                s.append(model);
                s.append(".");
                s.append(field);
                s.append("` references a non-existent ");
                s.append(target);
            },
            ValidationError::ReferencedByChildren { model, field } => {
                s.append("cannot delete: ");
                s.append(model);
                s.append(" rows still reference it via `");
                s.append(field);
                s.append("` (on_delete=restrict)");
            },
            ValidationError::Constraint { model, field, rule, message } => {
                s.append("field `");
                s.append(model);
                s.append(".");
                s.append(field);
                s.append("` violates `");
                s.append(rule);
                s.append("`: ");
                s.append(message.as_str());
            },
            ValidationError::SequenceExhausted { model, field } => {
                s.append("auto-increment sequence for `");
                s.append(model);
                s.append(".");
                s.append(field);
                s.append("` is exhausted");
            },
        }
        proof {
            assert(s@ =~= validation_text(*self));
        }
        s
    }
}

/// The text of a replication failure.
pub open spec fn apply_text(e: ApplyError) -> Seq<char> {
    match e {
        ApplyError::Decode(m) => "failed to decode replication frame: "@ + m@,
        ApplyError::Validation(v) => "replicated write rejected: "@ + validation_text(v),
    }
}

impl ApplyError {
    /// The failure as a sentence.
    pub fn describe(&self) -> (s: String)
        ensures
            s@ == apply_text(*self),
    {
        match self {
            ApplyError::Decode(m) => {
                let mut s = String::from_str("failed to decode replication frame: ");
                s.append(m.as_str());
                s
            },
            ApplyError::Validation(v) => {
                let mut s = String::from_str("replicated write rejected: ");
                let d = v.describe();
                s.append(d.as_str());
                s
            },
        }
    }
}

/// The text of a transaction failure.
pub open spec fn tx_text(e: TxError) -> Seq<char> {
    match e {
        TxError::Validation(v) => "transaction rejected: "@ + validation_text(v),
        TxError::Io(m) => "transaction I/O failure: "@ + m@,
        TxError::Conflict => "transaction conflict (retry)"@,
        TxError::CoordinatorUnavailable(m) => "commit coordinator unavailable: "@ + m@,
    }
}

impl TxError {
    /// The failure as a sentence.
    pub fn describe(&self) -> (s: String)
        ensures
            s@ == tx_text(*self),
    {
        match self {
            TxError::Validation(v) => {
                let mut s = String::from_str("transaction rejected: ");
                let d = v.describe();
                s.append(d.as_str());
                s
            },
            TxError::Io(m) => {
                let mut s = String::from_str("transaction I/O failure: ");
                s.append(m.as_str());
                s
            },
            TxError::Conflict => String::from_str("transaction conflict (retry)"),
            TxError::CoordinatorUnavailable(m) => {
                let mut s = String::from_str("commit coordinator unavailable: ");
                s.append(m.as_str());
                s
            },
        }
    }
}

} // verus!
