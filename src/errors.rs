use vstd::prelude::*;

verus! {

/// How a failed disk operation failed, as far as a caller needs to know.
#[derive(Debug, Clone, Copy, PartialEq, Eq, Structural)]
pub enum DiskErrorKind {
    NotFound,
    Other,
}

/// Every failure the engine reports.
#[derive(Debug, Clone, PartialEq, Eq)]
pub enum HFMError {
    /// The share code is unknown or expired, or the target path is absent.
    NotFound,
    /// The requested sub-path would leave the share root.
    Forbidden,
    /// A share with this code already exists.
    DuplicateCode,
    /// A path cannot be represented as text.
    UnicodeError,
    /// The target is neither a regular file nor a directory.
    UnknownFileType,
    /// Any other I/O failure.
    DiskError { kind: DiskErrorKind },
    /// The persistence engine failed.
    StorageError(String),
    /// A required directory could not be resolved.
    EnvError(String),
}

pub const STATUS_NOT_FOUND: u16 = 404;
pub const STATUS_FORBIDDEN: u16 = 403;
pub const STATUS_INTERNAL_SERVER_ERROR: u16 = 500;

/// The HTTP status an error maps to: absence and containment violations are
/// the client's fault, everything else is the server's.
pub open spec fn status_of(e: HFMError) -> u16 {
    match e {
        HFMError::NotFound => STATUS_NOT_FOUND,
        HFMError::DiskError { kind: DiskErrorKind::NotFound } => STATUS_NOT_FOUND,
        HFMError::Forbidden => STATUS_FORBIDDEN,
        _ => STATUS_INTERNAL_SERVER_ERROR,
    }
}

/// The short message shown to a client for an error.
pub open spec fn message_of(e: HFMError) -> Seq<char> {
    match e {
        HFMError::NotFound => "Not found"@,
        HFMError::Forbidden => "Forbidden"@,
        HFMError::DuplicateCode => "Duplicate code"@,
        HFMError::UnicodeError => "Unicode error"@,
        HFMError::UnknownFileType => "Unknown file type"@,
        HFMError::DiskError { kind: DiskErrorKind::NotFound } => "File not found"@,
        HFMError::DiskError { kind: DiskErrorKind::Other } => "Disk error"@,
        HFMError::StorageError(_) => "Storage error"@,
        HFMError::EnvError(_) => "Environment error"@,
    }
}

impl HFMError {
    /// The message and HTTP status a transport reports for this error.
    pub fn get_message_status(&self) -> (r: (&'static str, u16))
        ensures
            r.0@ == message_of(*self),
            r.1 == status_of(*self),
    {
        match self {
            HFMError::NotFound => ("Not found", STATUS_NOT_FOUND),
            HFMError::Forbidden => ("Forbidden", STATUS_FORBIDDEN),
            HFMError::DuplicateCode => ("Duplicate code", STATUS_INTERNAL_SERVER_ERROR),
            HFMError::UnicodeError => ("Unicode error", STATUS_INTERNAL_SERVER_ERROR),
            HFMError::UnknownFileType => ("Unknown file type", STATUS_INTERNAL_SERVER_ERROR),
            HFMError::DiskError { kind } => match kind {
                DiskErrorKind::NotFound => ("File not found", STATUS_NOT_FOUND),
                DiskErrorKind::Other => ("Disk error", STATUS_INTERNAL_SERVER_ERROR),
            },
            HFMError::StorageError(_) => ("Storage error", STATUS_INTERNAL_SERVER_ERROR),
            HFMError::EnvError(_) => ("Environment error", STATUS_INTERNAL_SERVER_ERROR),
        }
    }
}

} // verus!
