//! What every view obeys, the key tags of the collection layout, and the digest of views.

use vstd::prelude::*;
use crate::store::{is_prefix, Batch, MemoryStore, WriteOp};

verus! {

/// The first tag byte that a view may use inside its own key space.
pub const MIN_VIEW_TAG: u8 = 1;

/// The key prefix that marks the existence of an entry of a collection.
pub const TAG_INDEX: u8 = 1;

/// The key prefix under which the sub-view of an entry keeps its keys.
pub const TAG_SUBVIEW: u8 = 2;

/// The key under which a collection keeps its hash.
pub const TAG_HASH: u8 = 3;

/// The key of a view's record with the given tag.
pub open spec fn tag_key(base: Seq<u8>, tag: u8) -> Seq<u8> {
    base.push(tag)
}

/// The key of a record with the given tag and short key.
pub open spec fn tag_index_key(base: Seq<u8>, tag: u8, short_key: Seq<u8>) -> Seq<u8> {
    base.push(tag) + short_key
}

/// `base ‖ tag`.
pub fn base_tag(base: &Vec<u8>, tag: u8) -> (r: Vec<u8>)
    ensures
        r@ == tag_key(base@, tag),
{
    let mut r = base.clone();
    r.push(tag);
    r
}

/// `base ‖ tag ‖ short_key`.
pub fn base_tag_index(base: &Vec<u8>, tag: u8, short_key: &[u8]) -> (r: Vec<u8>)
    ensures
        r@ == tag_index_key(base@, tag, short_key@),
{
    let mut r = base_tag(base, tag);
    let mut i: usize = 0;
    while i < short_key.len()
        invariant
            i <= short_key.len(),
            r@ == base@.push(tag) + short_key@.take(i as int),
        decreases short_key.len() - i,
    {
        r.push(short_key[i]);
        i = i + 1;
        assert(r@ =~= base@.push(tag) + short_key@.take(i as int));
    }
    assert(short_key@.take(short_key.len() as int) =~= short_key@);
    r
}

/// Every operation from position `from` on touches only keys under `prefix`.
pub open spec fn ops_under(ops: Seq<WriteOp>, from: int, prefix: Seq<u8>) -> bool {
    forall|i: int| from <= i < ops.len() ==> op_under(#[trigger] ops[i], prefix)
}

/// The operation touches only keys under `prefix`.
pub open spec fn op_under(op: WriteOp, prefix: Seq<u8>) -> bool {
    match op {
        WriteOp::Put { key, value } => is_prefix(prefix, key@),
        WriteOp::Delete { key } => is_prefix(prefix, key@),
        WriteOp::DeletePrefix { key_prefix } => is_prefix(prefix, key_prefix@),
    }
}

/// The SHA3-256 digest of a byte string.
pub uninterp spec fn sha3_256_of(data: Seq<u8>) -> Seq<u8>;

/// Relies on `sha3::Sha3_256` through `digest::Digest::digest`: the 32-byte SHA3-256 digest of
/// the data.
#[verifier::external_body]
pub(crate) fn sha3_256(data: &Vec<u8>) -> (r: Vec<u8>)
    ensures
        r@ == sha3_256_of(data@),
        r@.len() == 32,
{
    <sha3::Sha3_256 as sha3::Digest>::digest(data.as_slice()).to_vec()
}

/// The contract of a view: a piece of state that lives under a key prefix of a store, is
/// loaded from it, buffers its changes in memory and writes them into a batch on flush.
pub trait StoredView: Sized {
    /// The key prefix the view owns.
    spec fn context_of(&self) -> Seq<u8>;

    /// The view's internal invariant.
    spec fn inv(&self) -> bool;

    /// No change is pending.
    spec fn pending_free(&self) -> bool;

    /// The view is marked to be emptied.
    spec fn is_cleared(&self) -> bool;

    /// The digest of the view's current state.
    spec fn hash_of(&self, store: Map<Seq<u8>, Seq<u8>>) -> Seq<u8>;

    /// The digest of a view freshly loaded from `store` under `context`.
    spec fn loaded_hash(context: Seq<u8>, store: Map<Seq<u8>, Seq<u8>>) -> Seq<u8>;

    /// Loads the view kept under `context`.
    fn load(context: Vec<u8>, store: &MemoryStore) -> (r: Self)
        requires
            store.wf(),
        ensures
            r.inv(),
            r.context_of() == context@,
            r.pending_free(),
            r.hash_of(store@) == Self::loaded_hash(context@, store@);

    /// Discards the pending changes.
    fn rollback(&mut self)
        requires
            old(self).inv(),
        ensures
            final(self).inv(),
            final(self).context_of() == old(self).context_of(),
            final(self).pending_free();

    /// Marks the view to be emptied on the next flush; pending changes are discarded.
    fn clear(&mut self)
        requires
            old(self).inv(),
        ensures
            final(self).inv(),
            final(self).context_of() == old(self).context_of(),
            final(self).is_cleared();

    /// Appends the operations that persist the pending changes; none of them leaves the view's
    /// key prefix.
    fn flush(&mut self, batch: &mut Batch)
        requires
            old(self).inv(),
        ensures
            final(self).inv(),
            final(self).context_of() == old(self).context_of(),
            final(self).pending_free(),
            final(batch).operations@.len() >= old(batch).operations@.len(),
            final(batch).operations@.take(old(batch).operations@.len() as int) == old(batch).operations@,
            ops_under(final(batch).operations@, old(batch).operations@.len() as int, old(self).context_of());

    /// A copy of the view with the same pending state, for taking a snapshot.
    fn clone_unchecked(&self) -> (r: Self)
        requires
            self.inv(),
        ensures
            r.inv(),
            r.context_of() == self.context_of(),
            r.pending_free() == self.pending_free(),
            r.is_cleared() == self.is_cleared(),
            forall|store: Map<Seq<u8>, Seq<u8>>| #[trigger] r.hash_of(store) == self.hash_of(store);

    /// The digest of the view's current state.
    fn hash(&self, store: &MemoryStore) -> (r: Vec<u8>)
        requires
            self.inv(),
            store.wf(),
        ensures
            r@ == self.hash_of(store@),
            r@.len() == 32;
}

} // verus!
