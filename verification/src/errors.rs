//! Error taxonomy of the store and the protocol.
//!
//! `InvalidName` and `NotFound` are caller errors, `MediumError` is an
//! environment failure of the storage medium, and `ProtocolError` reports
//! malformed wire data. Every error maps to a stable textual code that the
//! dispatcher may send across the wire, so no internal representation leaks.

use vstd::prelude::*;

verus! {

/// The error result of a storage operation.
#[derive(Clone, Copy, Debug, PartialEq, Eq, Structural)]
pub enum StorageError {
    /// The file name is empty or contains a path-traversal segment.
    InvalidName,
    /// The name is absent from the index.
    NotFound,
    /// The storage medium failed, or the index and the medium diverged.
    MediumError,
}

impl StorageError {
    /// The stable textual code of this error, as sent across the wire.
    pub fn code(&self) -> (r: String)
        ensures
            r@ == self.spec_code(),
    {
        match self {
            StorageError::InvalidName => "invalid_name".to_owned(),
            StorageError::NotFound => "not_found".to_owned(),
            StorageError::MediumError => "medium_error".to_owned(),
        }
    }

    /// The textual code, as a specification value.
    pub open spec fn spec_code(self) -> Seq<char> {
        match self {
            StorageError::InvalidName => "invalid_name"@,
            StorageError::NotFound => "not_found"@,
            StorageError::MediumError => "medium_error"@,
        }
    }
}

/// The error result of the process-level operations: starting a server
/// or a client over a shared file system.
pub enum AppError {
    /// A required environment value is missing or malformed.
    EnvVarError(String),
    /// The server could not be started.
    ServerError(String),
    /// The client could not reach the server.
    ClientError(String),
    /// The file system refused an operation.
    FileSystemError(String),
}

impl AppError {
    /// The text of this error.
    pub fn message(&self) -> (r: String)
        ensures
            r@ == self.spec_message(),
    {
        match self {
            AppError::EnvVarError(m) => m.clone(),
            AppError::ServerError(m) => m.clone(),
            AppError::ClientError(m) => m.clone(),
            AppError::FileSystemError(m) => m.clone(),
        }
    }

    /// The text of this error, as a specification value.
    pub open spec fn spec_message(self) -> Seq<char> {
        match self {
            AppError::EnvVarError(m) => m@,
            AppError::ServerError(m) => m@,
            AppError::ClientError(m) => m@,
            AppError::FileSystemError(m) => m@,
        }
    }
}

/// The error result of decoding wire data.
#[derive(Clone, Copy, Debug, PartialEq, Eq, Structural)]
pub enum ProtocolError {
    /// The frame or a field ended before its declared length.
    Truncated,
    /// The command tag is not one the protocol defines.
    UnknownTag,
    /// A text field is not valid UTF-8.
    BadText,
    /// Bytes follow the end of a well-formed message.
    TrailingBytes,
    /// A field is too long for its length prefix.
    Oversize,
}

impl ProtocolError {
    /// The stable textual code of this error, as sent across the wire.
    pub fn code(&self) -> (r: String)
        ensures
            r@ == self.spec_code(),
    {
        match self {
            ProtocolError::Truncated => "protocol_error:truncated".to_owned(),
            ProtocolError::UnknownTag => "protocol_error:unknown_tag".to_owned(),
            ProtocolError::BadText => "protocol_error:bad_text".to_owned(),
            ProtocolError::TrailingBytes => "protocol_error:trailing_bytes".to_owned(),
            ProtocolError::Oversize => "protocol_error:oversize".to_owned(),
        }
    }

    /// The textual code, as a specification value.
    pub open spec fn spec_code(self) -> Seq<char> {
        match self {
            ProtocolError::Truncated => "protocol_error:truncated"@,
            ProtocolError::UnknownTag => "protocol_error:unknown_tag"@,
            ProtocolError::BadText => "protocol_error:bad_text"@,
            ProtocolError::TrailingBytes => "protocol_error:trailing_bytes"@,
            ProtocolError::Oversize => "protocol_error:oversize"@,
        }
    }
}

} // verus!
