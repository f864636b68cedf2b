//! The execution module's backend: the storage behind the `list`, `create` and
//! `install` operations.
use crate::storage::Storage;
use crate::error::ManyError;
use vstd::prelude::*;

verus! {

pub struct ExecutionBackend {
    storage: Storage,
}

impl ExecutionBackend {
    /// A backend over the storage kept at `storage`.
    pub fn new(storage: Vec<u8>) -> (r: Result<ExecutionBackend, ManyError>)
        ensures
            r matches Ok(b) && b.storage_root() == storage@,
    {
        Ok(ExecutionBackend { storage: Storage::new(storage) })
    }

    pub closed spec fn storage_root(&self) -> Seq<u8> {
        self.storage.root_spec()
    }

    pub fn storage(&self) -> (r: &Storage)
        ensures
            r.root_spec() == self.storage_root(),
    {
        &self.storage
    }
}

} // verus!
