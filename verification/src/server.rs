//! The server-side entry: seeds the shared store and reports what the
//! node holds. The listening socket, the per-connection threads and the
//! log sink live with the process harness, which drives one session per
//! accepted connection through `Connection::on_frame`.

use vstd::prelude::*;
use vstd::string::*;
use vstd::utf8::encode_utf8;
use crate::dfs::DistributedFileSystem;
use crate::errors::AppError;
use crate::storage::valid_name;

verus! {

/// The fixed acknowledgement sent for a raw, unframed request.
pub fn generate_response(_request_data: &str) -> (r: String)
    ensures
        r@ == "Response from server\n"@,
{
    "Response from server\n".to_owned()
}

/// Seeds the store with the example file and reports the startup
/// failure that the transport-less core must answer: without a harness
/// there is no listener to run.
pub fn start(dfs: &mut DistributedFileSystem, _address: &str) -> (r: Result<(), AppError>)
    requires
        old(dfs).wf(),
    ensures
        final(dfs).wf(),
        final(dfs)@ == old(dfs)@.insert(
            "example.txt"@,
            encode_utf8("Hello, Distributed World!"@),
        ),
        r matches Err(AppError::ServerError(m)) && m@ == "Failed to start the server"@,
    {
    proof {
        lemma_example_name_valid();
    }
    let res = dfs.add_file(
        "example.txt".to_owned(),
        "Hello, Distributed World!".to_owned(),
    );
    match res {
        Ok(()) => {},
        Err(_) => {},
    }
    let _file_names = dfs.list_file_names();
    Err(AppError::ServerError("Failed to start the server".to_owned()))
}

/// The example file's name passes validation.
proof fn lemma_example_name_valid()
    ensures
        valid_name("example.txt"@),
{
    reveal_strlit("example.txt");
    reveal_strlit(".");
    reveal_strlit("..");
    let s = "example.txt"@;
    assert(s.len() == 11);
    assert forall|i: int| 0 <= i < s.len() implies s[i] != '/' && s[i] != '\\' by {
        if i == 0 {
            assert(s[0] == 'e');
        } else if i == 1 {
            assert(s[1] == 'x');
        } else if i == 2 {
            assert(s[2] == 'a');
        } else if i == 3 {
            assert(s[3] == 'm');
        } else if i == 4 {
            assert(s[4] == 'p');
        } else if i == 5 {
            assert(s[5] == 'l');
        } else if i == 6 {
            assert(s[6] == 'e');
        } else if i == 7 {
            assert(s[7] == '.');
        } else if i == 8 {
            assert(s[8] == 't');
        } else if i == 9 {
            assert(s[9] == 'x');
        } else {
            assert(s[10] == 't');
        }
    }
    assert(!s.contains('/'));
    assert(!s.contains('\\'));
}

} // verus!
