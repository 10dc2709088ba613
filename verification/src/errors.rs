//! Errors and result-carrying types shared across the library.

use vstd::prelude::*;
use crate::ids::Uid;

verus! {

/// Errors of persistence operations.
#[derive(Clone, Debug, PartialEq)]
pub enum PersistenceError {
    /// Could not open the repository at the given path.
    RepoOpen(String),
    /// Underlying version-control error.
    Git(String),
    /// Input/output error.
    Io(String),
    /// Text decoding error.
    Utf8(String),
    /// A record's text does not follow the record format.
    Toml(String),
    /// The requested object does not exist.
    NotFound(String),
    /// An object in the tree had an unexpected type.
    InvalidObjectType(String),
    /// The backend does not support this operation.
    UnsupportedOperation(String),
    /// A ledger marker record failed to parse.
    ParseLedger { ledger_name: String, message: String },
    /// Any other failure.
    Other(String),
}

impl PersistenceError {
    /// A short label naming the error's kind.
    pub fn kind_label(&self) -> (r: &'static str)
        ensures
            r@ == self.kind_label_spec(),
    {
        match self {
            PersistenceError::RepoOpen(_) => "repo open error",
            PersistenceError::Git(_) => "git error",
            PersistenceError::Io(_) => "io error",
            PersistenceError::Utf8(_) => "utf-8 decode error",
            PersistenceError::Toml(_) => "record parse error",
            PersistenceError::NotFound(_) => "not found",
            PersistenceError::InvalidObjectType(_) => "invalid object type",
            PersistenceError::UnsupportedOperation(_) => "unsupported operation",
            PersistenceError::ParseLedger { .. } => "ledger parse error",
            PersistenceError::Other(_) => "error",
        }
    }

    /// The label `kind_label` returns for each kind of error.
    pub open spec fn kind_label_spec(&self) -> Seq<char> {
        match self {
            PersistenceError::RepoOpen(_) => "repo open error"@,
            PersistenceError::Git(_) => "git error"@,
            PersistenceError::Io(_) => "io error"@,
            PersistenceError::Utf8(_) => "utf-8 decode error"@,
            PersistenceError::Toml(_) => "record parse error"@,
            PersistenceError::NotFound(_) => "not found"@,
            PersistenceError::InvalidObjectType(_) => "invalid object type"@,
            PersistenceError::UnsupportedOperation(_) => "unsupported operation"@,
            PersistenceError::ParseLedger { .. } => "ledger parse error"@,
            PersistenceError::Other(_) => "error"@,
        }
    }

    /// The free-form message carried by the error.
    pub fn message(&self) -> (r: String)
        ensures
            r@ == self.message_spec(),
    {
        match self {
            PersistenceError::RepoOpen(s) => s.clone(),
            PersistenceError::Git(s) => s.clone(),
            PersistenceError::Io(s) => s.clone(),
            PersistenceError::Utf8(s) => s.clone(),
            PersistenceError::Toml(s) => s.clone(),
            PersistenceError::NotFound(s) => s.clone(),
            PersistenceError::InvalidObjectType(s) => s.clone(),
            PersistenceError::UnsupportedOperation(s) => s.clone(),
            PersistenceError::ParseLedger { message, .. } => message.clone(),
            PersistenceError::Other(s) => s.clone(),
        }
    }

    /// The message `message` returns for each kind of error.
    pub open spec fn message_spec(&self) -> Seq<char> {
        match self {
            PersistenceError::RepoOpen(s) => s@,
            PersistenceError::Git(s) => s@,
            PersistenceError::Io(s) => s@,
            PersistenceError::Utf8(s) => s@,
            PersistenceError::Toml(s) => s@,
            PersistenceError::NotFound(s) => s@,
            PersistenceError::InvalidObjectType(s) => s@,
            PersistenceError::UnsupportedOperation(s) => s@,
            PersistenceError::ParseLedger { message, .. } => message@,
            PersistenceError::Other(s) => s@,
        }
    }
}

/// Errors of the balance engine.
#[derive(Clone, Debug, PartialEq)]
pub enum BusinessLogicError {
    /// The requested ledger is not in the loaded ledger set.
    LedgerNotFound(String),
}

/// Result of a refresh operation.
#[derive(Clone, Copy, Debug, PartialEq, Eq, Structural)]
pub struct RefreshResult {
    /// Whether anything changed in the backing store.
    pub has_changes: bool,
}

/// A proposed payment that reduces outstanding balances toward zero.
#[derive(Clone, Debug, PartialEq)]
pub struct Settlement {
    /// Who pays.
    pub from_entity: Uid,
    /// Who receives.
    pub to_entity: Uid,
    /// How much, in minor units.
    pub amount: i128,
    /// Currency code.
    pub currency: String,
}

/// Kinds of validation failures.
#[derive(Clone, Copy, Debug, PartialEq, Eq, Structural)]
pub enum ValidationErrorType {
    /// A required field is missing or empty.
    MissingField,
    /// A field's format is wrong.
    InvalidFormat,
    /// An identifier reference resolves to nothing.
    InvalidReference,
    /// A value is out of range or otherwise invalid.
    InvalidValue,
    /// A duplicate identifier was found.
    DuplicateValue,
    /// A sum does not match its required value.
    SumMismatch,
}

/// One field-scoped validation failure.
#[derive(Clone, Debug, PartialEq)]
pub struct ValidationError {
    /// Field name or path.
    pub field: String,
    /// Human-readable message.
    pub message: String,
    /// Kind of failure.
    pub error_type: ValidationErrorType,
}

/// Outcome of a validation: valid, or a list of field-scoped failures.
#[derive(Clone, Debug, PartialEq)]
pub struct ValidationResult {
    /// Whether validation passed.
    pub is_valid: bool,
    /// The failures; empty exactly when `is_valid`.
    pub errors: Vec<ValidationError>,
}

impl ValidationResult {
    /// A result is coherent when the flag and the error list agree.
    pub open spec fn wf(self) -> bool {
        self.is_valid <==> self.errors@.len() == 0
    }
}

} // verus!
