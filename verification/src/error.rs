//! The errors of the library.

use vstd::prelude::*;
use vstd::string::StringExecFns;

verus! {

/// Everything that an operation of this library can fail with.
#[derive(Debug, PartialEq, Eq)]
pub enum AppError {
    /// The backing store refused an operation.
    Database(String),
    IoError(String),
    JsonError(String),
    CategoryNotFound,
    InvalidPath(String),
    InvalidPassword,
    PathNotFound(String),
    PermissionDenied(String),
    InvalidInput(String),
    Internal(String),
    Gpu(String),
    NvmlUnavailable,
    WmiQuery(String),
    SystemError(String),
}

pub type Result<T> = std::result::Result<T, AppError>;

/// The text that describes an error to a user.
pub open spec fn message_text(e: AppError) -> Seq<char> {
    match e {
        AppError::Database(detail) => "Database error: "@ + detail@,
        AppError::IoError(detail) => "IO error: "@ + detail@,
        AppError::JsonError(detail) => "JSON error: "@ + detail@,
        AppError::CategoryNotFound => "Category not found"@,
        AppError::InvalidPath(detail) => "Invalid path: "@ + detail@,
        AppError::InvalidPassword => "Invalid password"@,
        AppError::PathNotFound(detail) => "Path not found: "@ + detail@,
        AppError::PermissionDenied(detail) => "Permission denied: "@ + detail@,
        AppError::InvalidInput(detail) => "Invalid input: "@ + detail@,
        AppError::Internal(detail) => "Internal error: "@ + detail@,
        AppError::Gpu(detail) => "GPU error: "@ + detail@,
        AppError::NvmlUnavailable => "NVML not available or failed to initialize"@,
        AppError::WmiQuery(detail) => "WMI query failed: "@ + detail@,
        AppError::SystemError(detail) => "System error: "@ + detail@,
    }
}

fn labelled(label: &str, detail: &String) -> (text: String)
    ensures
        text@ == label@ + detail@,
{
    String::from_str(label).concat(detail.as_str())
}

impl AppError {
    /// The text that describes this error to a user.
    pub fn message(&self) -> (text: String)
        ensures
            text@ == message_text(*self),
    {
        match self {
            AppError::Database(detail) => labelled("Database error: ", detail),
            AppError::IoError(detail) => labelled("IO error: ", detail),
            AppError::JsonError(detail) => labelled("JSON error: ", detail),
            AppError::CategoryNotFound => String::from_str("Category not found"),
            AppError::InvalidPath(detail) => labelled("Invalid path: ", detail),
            AppError::InvalidPassword => String::from_str("Invalid password"),
            AppError::PathNotFound(detail) => labelled("Path not found: ", detail),
            AppError::PermissionDenied(detail) => labelled("Permission denied: ", detail),
            AppError::InvalidInput(detail) => labelled("Invalid input: ", detail),
            AppError::Internal(detail) => labelled("Internal error: ", detail),
            AppError::Gpu(detail) => labelled("GPU error: ", detail),
            AppError::NvmlUnavailable => String::from_str("NVML not available or failed to initialize"),
            AppError::WmiQuery(detail) => labelled("WMI query failed: ", detail),
            AppError::SystemError(detail) => labelled("System error: ", detail),
        }
    }

    /// An `InvalidInput` with this detail.
    pub fn invalid_input(detail: &str) -> (e: AppError)
        ensures
            e is InvalidInput,
            e->InvalidInput_0@ == detail@,
    {
        AppError::InvalidInput(String::from_str(detail))
    }

    /// A `Database` error with this detail.
    pub fn store(detail: &str) -> (e: AppError)
        ensures
            e is Database,
            e->Database_0@ == detail@,
    {
        AppError::Database(String::from_str(detail))
    }
}

} // verus!
