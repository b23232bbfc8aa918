//! A view that holds one byte string.

use vstd::prelude::*;
use crate::store::{is_prefix, Batch, MemoryStore};
use crate::views::{sha3_256, sha3_256_of, StoredView};

verus! {

/// A byte string kept under the view's own key; empty where nothing is stored.
pub struct RegisterView {
    context: Vec<u8>,
    stored_value: Vec<u8>,
    value: Vec<u8>,
    dirty: bool,
}

/// The value stored under `context`, empty where there is none.
pub open spec fn stored_register(context: Seq<u8>, store: Map<Seq<u8>, Seq<u8>>) -> Seq<u8> {
    if store.contains_key(context) { store[context] } else { Seq::empty() }
}

impl RegisterView {
    /// The current value.
    pub closed spec fn value_of(&self) -> Seq<u8> {
        self.value@
    }

    /// The current value.
    pub fn get(&self) -> (r: &Vec<u8>)
        ensures
            r@ == self.value_of(),
    {
        &self.value
    }

    /// Replaces the value.
    pub fn set(&mut self, value: Vec<u8>)
        ensures
            final(self).value_of() == value@,
            final(self).context_of() == old(self).context_of(),
            final(self).inv(),
    {
        self.value = value;
        self.dirty = true;
    }
}

impl StoredView for RegisterView {
    closed spec fn context_of(&self) -> Seq<u8> {
        self.context@
    }

    closed spec fn inv(&self) -> bool {
        true
    }

    closed spec fn pending_free(&self) -> bool {
        !self.dirty && self.value@ == self.stored_value@
    }

    closed spec fn is_cleared(&self) -> bool {
        self.value@.len() == 0
    }

    closed spec fn hash_of(&self, store: Map<Seq<u8>, Seq<u8>>) -> Seq<u8> {
        sha3_256_of(self.value@)
    }

    closed spec fn loaded_hash(context: Seq<u8>, store: Map<Seq<u8>, Seq<u8>>) -> Seq<u8> {
        sha3_256_of(stored_register(context, store))
    }

    fn load(context: Vec<u8>, store: &MemoryStore) -> (r: RegisterView) {
        let stored = match store.read_value(context.as_slice()) {
            Some(v) => v,
            None => Vec::new(),
        };
        assert(stored@ == stored_register(context@, store@));
        RegisterView { context, stored_value: stored.clone(), value: stored, dirty: false }
    }

    fn rollback(&mut self) {
        self.value = self.stored_value.clone();
        self.dirty = false;
    }

    fn clear(&mut self) {
        self.value = Vec::new();
        self.dirty = true;
    }

    fn flush(&mut self, batch: &mut Batch) {
        let ghost before = batch.operations@;
        if self.dirty {
            if self.value.len() == 0 {
                batch.delete_key(self.context.clone());
            } else {
                batch.put_key_value_bytes(self.context.clone(), self.value.clone());
            }
            assert(is_prefix(self.context@, self.context@)) by {
                assert(self.context@.take(self.context@.len() as int) =~= self.context@);
            }
        }
        assert(batch.operations@.take(before.len() as int) =~= before);
        self.stored_value = self.value.clone();
        self.dirty = false;
    }

    fn clone_unchecked(&self) -> (r: RegisterView) {
        RegisterView {
            context: self.context.clone(),
            stored_value: self.stored_value.clone(),
            value: self.value.clone(),
            dirty: self.dirty,
        }
    }

    fn hash(&self, store: &MemoryStore) -> (r: Vec<u8>) {
        sha3_256(&self.value)
    }
}

/// A cleared register reads empty, and a register always keeps its invariant.
pub proof fn lemma_register_facts(r: RegisterView)
    ensures
        r.is_cleared() ==> r.value_of().len() == 0,
        r.inv(),
{
}

} // verus!
