use vstd::prelude::*;

verus! {

/// The error taxonomy of the crate.
///
/// Volume-level failures (`VolumeOpen`, `UsnJournalQuery`) are fatal for a
/// scan; `Glob` reports a malformed matcher; `Everything` reports an indexer
/// failure that callers recover from by falling back to the USN backend;
/// `LockPoison` reports shared state corrupted by a panicking worker.
#[derive(Debug, Clone)]
pub enum AppError {
    Io { message: String },
    Glob { message: String },
    VolumeOpen { drive: String, message: String },
    UsnJournalQuery { message: String },
    Everything { message: String },
    Other { message: String },
    LockPoison { message: String },
}

/// The text that `AppError::message` returns for each variant.
pub open spec fn error_text(e: AppError) -> Seq<char> {
    match e {
        AppError::Io { message } => "IO error: "@ + message@,
        AppError::Glob { message } => "Glob pattern error: "@ + message@,
        AppError::VolumeOpen { drive, message } => "Volume error for '"@ + drive@ + "': "@
            + message@,
        AppError::UsnJournalQuery { message } => "Failed to query USN journal: "@ + message@,
        AppError::Everything { message } => "Everything search error: "@ + message@,
        AppError::Other { message } => "Other error: "@ + message@,
        AppError::LockPoison { message } => "Lock poison error: "@ + message@,
    }
}

impl AppError {
    /// A human-readable description: a fixed prefix naming the kind,
    /// followed by the underlying cause.
    pub fn message(&self) -> (r: String)
        ensures
            r@ == error_text(*self),
    {
        match self {
            AppError::Io { message } => String::from_str("IO error: ").concat(message.as_str()),
            AppError::Glob { message } => String::from_str("Glob pattern error: ").concat(
                message.as_str(),
            ),
            AppError::VolumeOpen { drive, message } => String::from_str("Volume error for '")
                .concat(drive.as_str()).concat("': ").concat(message.as_str()),
            AppError::UsnJournalQuery { message } => String::from_str(
                "Failed to query USN journal: ",
            ).concat(message.as_str()),
            AppError::Everything { message } => String::from_str("Everything search error: ")
                .concat(message.as_str()),
            AppError::Other { message } => String::from_str("Other error: ").concat(
                message.as_str(),
            ),
            AppError::LockPoison { message } => String::from_str("Lock poison error: ").concat(
                message.as_str(),
            ),
        }
    }
}

} // verus!
