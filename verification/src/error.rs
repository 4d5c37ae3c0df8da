use vstd::prelude::*;
use vstd::string::*;

verus! {

/// The failure classes a command can end in.
#[derive(Clone, Copy, Debug, PartialEq, Eq, Structural)]
pub enum ErrorKind {
    Database,
    Network,
    Io,
    Internal,
    DateParse,
    InvalidInput,
    Unauthorized,
    NotFound,
}

/// A failed command: its class and a human-readable detail.
#[derive(Debug)]
pub enum AppError {
    Database(String),
    Network(String),
    Io(String),
    Internal(String),
    DateParse(String),
    InvalidInput(String),
    Unauthorized(String),
    NotFound(String),
}

impl AppError {
    /// The class of this error.
    pub open spec fn spec_kind(&self) -> ErrorKind {
        match *self {
            AppError::Database(_) => ErrorKind::Database,
            AppError::Network(_) => ErrorKind::Network,
            AppError::Io(_) => ErrorKind::Io,
            AppError::Internal(_) => ErrorKind::Internal,
            AppError::DateParse(_) => ErrorKind::DateParse,
            AppError::InvalidInput(_) => ErrorKind::InvalidInput,
            AppError::Unauthorized(_) => ErrorKind::Unauthorized,
            AppError::NotFound(_) => ErrorKind::NotFound,
        }
    }

    /// The detail text carried by this error.
    pub open spec fn spec_detail(&self) -> Seq<char> {
        match *self {
            AppError::Database(m) => m@,
            AppError::Network(m) => m@,
            AppError::Io(m) => m@,
            AppError::Internal(m) => m@,
            AppError::DateParse(m) => m@,
            AppError::InvalidInput(m) => m@,
            AppError::Unauthorized(m) => m@,
            AppError::NotFound(m) => m@,
        }
    }

    /// The label that precedes the detail in the flattened text of each class.
    pub open spec fn label(kind: ErrorKind) -> Seq<char> {
        match kind {
            ErrorKind::Database => "Database error: "@,
            ErrorKind::Network => "Network error: "@,
            ErrorKind::Io => "IO error: "@,
            ErrorKind::Internal => "Internal error: "@,
            ErrorKind::DateParse => "Date parse error: "@,
            ErrorKind::InvalidInput => "Invalid input: "@,
            ErrorKind::Unauthorized => "Unauthorized: "@,
            ErrorKind::NotFound => "Not found: "@,
        }
    }

    #[verifier::when_used_as_spec(spec_kind)]
    pub fn kind(&self) -> (k: ErrorKind)
        ensures
            k == self.spec_kind(),
    {
        match self {
            AppError::Database(_) => ErrorKind::Database,
            AppError::Network(_) => ErrorKind::Network,
            AppError::Io(_) => ErrorKind::Io,
            AppError::Internal(_) => ErrorKind::Internal,
            AppError::DateParse(_) => ErrorKind::DateParse,
            AppError::InvalidInput(_) => ErrorKind::InvalidInput,
            AppError::Unauthorized(_) => ErrorKind::Unauthorized,
            AppError::NotFound(_) => ErrorKind::NotFound,
        }
    }

    /// Flattens the error to the text shown at the command boundary:
    /// the label of its class followed by its detail.
    pub fn message(&self) -> (text: String)
        ensures
            text@ == Self::label(self.spec_kind()) + self.spec_detail(),
    {
        match self {
            AppError::Database(m) => String::from_str("Database error: ").concat(m.as_str()),
            AppError::Network(m) => String::from_str("Network error: ").concat(m.as_str()),
            AppError::Io(m) => String::from_str("IO error: ").concat(m.as_str()),
            AppError::Internal(m) => String::from_str("Internal error: ").concat(m.as_str()),
            AppError::DateParse(m) => String::from_str("Date parse error: ").concat(m.as_str()),
            AppError::InvalidInput(m) => String::from_str("Invalid input: ").concat(m.as_str()),
            AppError::Unauthorized(m) => String::from_str("Unauthorized: ").concat(m.as_str()),
            AppError::NotFound(m) => String::from_str("Not found: ").concat(m.as_str()),
        }
    }
}

/// Builds an invalid-input error with the given detail.
pub fn invalid_input(detail: &str) -> (e: AppError)
    ensures
        e.spec_kind() == ErrorKind::InvalidInput,
        e.spec_detail() == detail@,
{
    AppError::InvalidInput(String::from_str(detail))
}

/// Builds a not-found error with the given detail.
pub fn not_found(detail: &str) -> (e: AppError)
    ensures
        e.spec_kind() == ErrorKind::NotFound,
        e.spec_detail() == detail@,
{
    AppError::NotFound(String::from_str(detail))
}

/// Builds a date-parse error with the given detail.
pub fn date_parse(detail: &str) -> (e: AppError)
    ensures
        e.spec_kind() == ErrorKind::DateParse,
        e.spec_detail() == detail@,
{
    AppError::DateParse(String::from_str(detail))
}

/// Builds an internal error with the given detail.
pub fn internal(detail: &str) -> (e: AppError)
    ensures
        e.spec_kind() == ErrorKind::Internal,
        e.spec_detail() == detail@,
{
    AppError::Internal(String::from_str(detail))
}

} // verus!
