//! The configuration handed to constructors: the storage root path and
//! the connection bound. Environment lookup and file parsing live with
//! the process harness; the core only validates the values it is given,
//! once, at construction time.

use vstd::prelude::*;
use vstd::string::*;

verus! {

/// The validated inputs of the core: where files live and how many
/// connections the harness may serve at once.
pub struct Config {
    pub file_path: String,
    pub max_connections: i32,
}

impl Config {
    /// Whether these values may configure the core: at least one
    /// connection, and a non-empty storage root.
    pub open spec fn spec_valid(self) -> bool {
        self.max_connections >= 1 && self.file_path@.len() > 0
    }

    /// Checks the configuration; each rejection names its reason.
    pub fn validate(&self) -> (r: Result<(), &'static str>)
        ensures
            r is Ok <==> self.spec_valid(),
            self.max_connections < 1 ==> r is Err && r->Err_0@
                == "Max connections must be at least 1"@,
            self.max_connections >= 1 && self.file_path@.len() == 0 ==> r is Err && r->Err_0@
                == "File path must not be empty"@,
    {
        if self.max_connections < 1 {
            Err("Max connections must be at least 1")
        } else if self.file_path.as_str().unicode_len() == 0 {
            Err("File path must not be empty")
        } else {
            Ok(())
        }
    }
}

} // verus!
