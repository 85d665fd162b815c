//! The distributed file system facade: the storage engine together with
//! the root under which the harness mirrors stored objects on a
//! physical medium. Text-valued convenience operations carry their
//! content as UTF-8 through the byte-valued engine.

use vstd::prelude::*;
use vstd::string::*;
use vstd::utf8::{valid_utf8, decode_utf8, encode_utf8};
use crate::config::Config;
use crate::dispatcher;
use crate::errors::StorageError;
use crate::protocol::{Command, Response};
use crate::storage::{StorageEngine, valid_name, name_in};
use crate::text;

verus! {

/// The node's file store: the engine, and the directory that names its
/// physical locations for the harness.
pub struct DistributedFileSystem {
    engine: StorageEngine,
    base_dir: String,
}

impl View for DistributedFileSystem {
    type V = Map<Seq<char>, Seq<u8>>;

    closed spec fn view(&self) -> Map<Seq<char>, Seq<u8>> {
        self.engine@
    }
}

impl DistributedFileSystem {
    /// The engine invariant.
    pub closed spec fn wf(self) -> bool {
        self.engine.wf()
    }

    /// The configured storage root.
    pub closed spec fn spec_base_dir(self) -> Seq<char> {
        self.base_dir@
    }

    /// An empty store under the default storage root.
    pub fn new() -> (r: DistributedFileSystem)
        ensures
            r.wf(),
            r@ == Map::<Seq<char>, Seq<u8>>::empty(),
            r.spec_base_dir() == "./data"@,
    {
        DistributedFileSystem { engine: StorageEngine::new(), base_dir: "./data".to_owned() }
    }

    /// An empty store under a validated configuration's root.
    pub fn from_config(config: &Config) -> (r: Result<DistributedFileSystem, &'static str>)
        ensures
            r is Ok <==> config.spec_valid(),
            r is Ok ==> r->Ok_0.wf() && r->Ok_0@ == Map::<Seq<char>, Seq<u8>>::empty()
                && r->Ok_0.spec_base_dir() == config.file_path@,
    {
        match config.validate() {
            Err(e) => Err(e),
            Ok(()) => Ok(
                DistributedFileSystem {
                    engine: StorageEngine::new(),
                    base_dir: config.file_path.clone(),
                },
            ),
        }
    }

    /// Stores text content under a name; the name is validated, the
    /// content is carried as UTF-8.
    pub fn add_file(&mut self, file_name: String, content: String) -> (r: Result<
        (),
        StorageError,
    >)
        requires
            old(self).wf(),
        ensures
            final(self).wf(),
            final(self).spec_base_dir() == old(self).spec_base_dir(),
            valid_name(file_name@) ==> r == Result::<(), StorageError>::Ok(()) && final(self)@
                == old(self)@.insert(file_name@, encode_utf8(content@)),
            !valid_name(file_name@) ==> r == Result::<(), StorageError>::Err(
                StorageError::InvalidName,
            ) && final(self)@ == old(self)@,
    {
        let bytes = content.as_str().as_bytes_vec();
        self.engine.store(file_name.as_str(), bytes)
    }

    /// The text content stored under a name. `NotFound` reports an
    /// absent name; `MediumError` reports stored bytes that are not
    /// text.
    pub fn get_file_content(&self, file_name: String) -> (r: Result<String, StorageError>)
        requires
            self.wf(),
        ensures
            !self@.contains_key(file_name@) ==> r == Result::<String, StorageError>::Err(
                StorageError::NotFound,
            ),
            self@.contains_key(file_name@) && valid_utf8(self@[file_name@]) ==> r is Ok
                && r->Ok_0@ == decode_utf8(self@[file_name@]),
            self@.contains_key(file_name@) && !valid_utf8(self@[file_name@]) ==> r
                == Result::<String, StorageError>::Err(StorageError::MediumError),
    {
        match self.engine.retrieve(file_name.as_str()) {
            Err(e) => Err(e),
            Ok(bytes) => match text::string_from_utf8(bytes) {
                Some(s) => Ok(s),
                None => Err(StorageError::MediumError),
            },
        }
    }

    /// All stored names, in strictly ascending lexicographic order.
    pub fn list_file_names(&self) -> (r: Result<Vec<String>, StorageError>)
        requires
            self.wf(),
        ensures
            r is Ok,
            forall|n: Seq<char>| self@.contains_key(n) <==> name_in(r->Ok_0@, n),
            forall|i: int, j: int|
                0 <= i < j < r->Ok_0@.len() ==> text::lex_lt(
                    (#[trigger] r->Ok_0@[i])@,
                    (#[trigger] r->Ok_0@[j])@,
                ),
    {
        Ok(self.engine.list())
    }

    /// The physical path under the storage root where the harness keeps
    /// the bytes of `file_name`.
    pub fn generate_file_path(&self, file_name: &str) -> (r: String)
        ensures
            r@ == self.spec_base_dir() + "/"@ + file_name@,
    {
        let mut path = self.base_dir.clone();
        path.append("/");
        path.append(file_name);
        path
    }

    /// Stores raw bytes under a name, overwriting any prior entry.
    pub fn store(&mut self, name: &str, bytes: Vec<u8>) -> (r: Result<(), StorageError>)
        requires
            old(self).wf(),
        ensures
            final(self).wf(),
            final(self).spec_base_dir() == old(self).spec_base_dir(),
            valid_name(name@) ==> r == Result::<(), StorageError>::Ok(()) && final(self)@
                == old(self)@.insert(name@, bytes@),
            !valid_name(name@) ==> r == Result::<(), StorageError>::Err(
                StorageError::InvalidName,
            ) && final(self)@ == old(self)@,
    {
        self.engine.store(name, bytes)
    }

    /// The bytes stored under a name.
    pub fn retrieve(&self, name: &str) -> (r: Result<Vec<u8>, StorageError>)
        requires
            self.wf(),
        ensures
            self@.contains_key(name@) ==> r is Ok && r->Ok_0@ == self@[name@],
            !self@.contains_key(name@) ==> r == Result::<Vec<u8>, StorageError>::Err(
                StorageError::NotFound,
            ),
    {
        self.engine.retrieve(name)
    }

    /// Removes a name and its bytes.
    pub fn delete(&mut self, name: &str) -> (r: Result<(), StorageError>)
        requires
            old(self).wf(),
        ensures
            final(self).wf(),
            final(self).spec_base_dir() == old(self).spec_base_dir(),
            old(self)@.contains_key(name@) ==> r == Result::<(), StorageError>::Ok(())
                && final(self)@ == old(self)@.remove(name@),
            !old(self)@.contains_key(name@) ==> r == Result::<(), StorageError>::Err(
                StorageError::NotFound,
            ) && final(self)@ == old(self)@,
    {
        self.engine.delete(name)
    }

    /// The stored names that contain `substring`, in strictly ascending
    /// lexicographic order.
    pub fn search(&self, substring: &str) -> (r: Vec<String>)
        requires
            self.wf(),
        ensures
            forall|n: Seq<char>|
                (self@.contains_key(n) && text::contains_sub(n, substring@)) <==> name_in(r@, n),
            forall|i: int, j: int|
                0 <= i < j < r@.len() ==> text::lex_lt((#[trigger] r@[i])@, (#[trigger] r@[j])@),
    {
        self.engine.search(substring)
    }

    /// Stores a batch of files, one result per item.
    pub fn store_files(&mut self, files: &Vec<(String, Vec<u8>)>) -> (r: Vec<
        Result<(), StorageError>,
    >)
        requires
            old(self).wf(),
        ensures
            final(self).wf(),
            final(self).spec_base_dir() == old(self).spec_base_dir(),
            final(self)@ == crate::storage::apply_store_batch(old(self)@, files@),
            r@.len() == files@.len(),
            forall|i: int|
                0 <= i < files@.len() ==> #[trigger] r@[i] == crate::storage::store_outcome(
                    files@[i].0@,
                ),
    {
        self.engine.store_files(files)
    }

    /// Retrieves a batch of files, one result per item.
    pub fn retrieve_files(&self, names: &Vec<String>) -> (r: Vec<Result<Vec<u8>, StorageError>>)
        requires
            self.wf(),
        ensures
            r@.len() == names@.len(),
            forall|i: int|
                0 <= i < names@.len() && self@.contains_key(names@[i]@) ==> (#[trigger] r@[i])
                    is Ok && r@[i]->Ok_0@ == self@[names@[i]@],
            forall|i: int|
                0 <= i < names@.len() && !self@.contains_key(names@[i]@) ==> #[trigger] r@[i]
                    == Result::<Vec<u8>, StorageError>::Err(StorageError::NotFound),
    {
        self.engine.retrieve_files(names)
    }

    /// Deletes a batch of names, one result per item.
    pub fn delete_files(&mut self, names: &Vec<String>) -> (r: Vec<Result<(), StorageError>>)
        requires
            old(self).wf(),
        ensures
            final(self).wf(),
            final(self).spec_base_dir() == old(self).spec_base_dir(),
            final(self)@ == crate::storage::apply_delete_batch(old(self)@, names@),
            r@.len() == names@.len(),
            forall|i: int|
                0 <= i < names@.len() ==> #[trigger] r@[i] == crate::storage::delete_outcome(
                    old(self)@,
                    names@,
                    i,
                ),
    {
        self.engine.delete_files(names)
    }

    /// The dispatcher's entry point: executes one decoded command
    /// against this store and produces its one response.
    pub fn handle_command(&mut self, cmd: Command) -> (r: Response)
        requires
            old(self).wf(),
        ensures
            final(self).wf(),
            final(self).spec_base_dir() == old(self).spec_base_dir(),
            dispatcher::engine_step(old(self)@, final(self)@, cmd@),
            dispatcher::resp_rel(old(self)@, cmd@, r@),
    {
        dispatcher::handle(&mut self.engine, cmd)
    }
}

} // verus!
