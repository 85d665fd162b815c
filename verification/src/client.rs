//! The client-side entry: reads the example file back from the shared
//! store and reports the startup failure that the transport-less core
//! must answer: without a harness there is no server to connect to. The
//! socket and the log sink live with the process harness.

use vstd::prelude::*;
use vstd::string::*;
use vstd::utf8::valid_utf8;
use crate::dfs::DistributedFileSystem;
use crate::errors::{AppError, StorageError};

verus! {

/// Reads the example file's content from the store, then reports that
/// no server connection can be made from the core alone. An absent or
/// unreadable file is surfaced as the file-system error instead.
pub fn start(dfs: &DistributedFileSystem, _server_address: &str) -> (r: Result<(), AppError>)
    requires
        dfs.wf(),
    ensures
        !dfs@.contains_key("example.txt"@) ==> (r matches Err(AppError::FileSystemError(m)) && m@
            == "File not found"@),
        dfs@.contains_key("example.txt"@) && !valid_utf8(dfs@["example.txt"@]) ==> (r matches Err(
            AppError::FileSystemError(m),
        ) && m@ == "File unreadable"@),
        dfs@.contains_key("example.txt"@) && valid_utf8(dfs@["example.txt"@]) ==> (r matches Err(
            AppError::ClientError(m),
        ) && m@ == "Failed to connect to the server"@),
{
    let content = dfs.get_file_content("example.txt".to_owned());
    match content {
        Err(StorageError::NotFound) => Err(
            AppError::FileSystemError("File not found".to_owned()),
        ),
        Err(_) => Err(AppError::FileSystemError("File unreadable".to_owned())),
        Ok(_text) => Err(AppError::ClientError("Failed to connect to the server".to_owned())),
    }
}

} // verus!
