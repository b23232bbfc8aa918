//! Collections indexed by typed keys: one over an ordinary key encoding, one over an
//! order-preserving encoding.

use vstd::prelude::*;
use crate::collection_view::{sorted_keys, ByteCollectionView, Update};
use crate::custom_key::{CustomSerialize, ViewError};
use crate::order::{byte_seqs, lemma_sorted_unique, lex_sorted};
use crate::store::{Batch, MemoryStore};
use crate::views::{ops_under, StoredView};

verus! {

/// A key type with a fixed binary encoding: its bytes identify it, but their order need not be
/// the order of the keys.
pub trait KeySerialize: Sized {
    /// The encoding of the key.
    spec fn key_bytes(&self) -> Seq<u8>;

    /// Whether `short_key` encodes a key.
    spec fn is_key_encoding(short_key: Seq<u8>) -> bool;

    /// The encoding.
    fn to_key_bytes(&self) -> (r: Vec<u8>)
        ensures
            r@ == self.key_bytes();

    /// The key that `short_key` encodes, or an error.
    fn from_key_bytes(short_key: &[u8]) -> (r: Result<Self, ViewError>)
        ensures
            r is Ok <==> Self::is_key_encoding(short_key@),
            r matches Ok(k) ==> k.key_bytes() == short_key@;
}

/// The 8 bytes of `n`, least significant first.
pub open spec fn le8(n: nat) -> Seq<u8> {
    crate::collection_view::le_bytes(n, 8)
}

impl KeySerialize for u64 {
    open spec fn key_bytes(&self) -> Seq<u8> {
        le8(*self as nat)
    }

    open spec fn is_key_encoding(short_key: Seq<u8>) -> bool {
        short_key.len() == 8
    }

    fn to_key_bytes(&self) -> (r: Vec<u8>) {
        let mut r: Vec<u8> = Vec::new();
        crate::collection_view::push_le_u64(&mut r, *self);
        assert(r@ =~= le8(*self as nat));
        r
    }

    fn from_key_bytes(short_key: &[u8]) -> (r: Result<u64, ViewError>) {
        if short_key.len() != 8 {
            return Err(ViewError::Deserialization);
        }
        let mut rev: Vec<u8> = Vec::new();
        let mut i: usize = 8;
        while i > 0
            invariant
                i <= 8,
                short_key@.len() == 8,
                rev@ == short_key@.skip(i as int).reverse(),
            decreases i,
        {
            i = i - 1;
            rev.push(short_key[i]);
            assert(rev@ =~= short_key@.skip(i as int).reverse());
        }
        assert(short_key@.skip(0) =~= short_key@);
        let v = crate::custom_key::from_be_u64(rev.as_slice());
        proof { crate::custom_key::lemma_le_from_reversed(short_key@, rev@); }
        Ok(v)
    }
}

/// A collection of sub-views of type `W` indexed by keys of type `I`, stored under their
/// ordinary binary encoding; their order is the order of the encodings.
pub struct CollectionView<I, W> {
    collection: ByteCollectionView<W>,
    marker: std::marker::PhantomData<I>,
}

impl<I: KeySerialize, W: StoredView> CollectionView<I, W> {
    /// The byte-keyed collection underneath.
    pub closed spec fn inner(&self) -> ByteCollectionView<W> {
        self.collection
    }

    /// The existing indices, as their encodings.
    pub open spec fn live_indices(&self, store: Map<Seq<u8>, Seq<u8>>) -> Set<Seq<u8>> {
        self.inner().live_keys(store)
    }

    /// A copy of the collection with the same pending state.
    pub fn clone_unchecked(&self) -> (r: CollectionView<I, W>)
        requires
            self.inner().wf(),
        ensures
            r.inner().wf(),
            r.inner().base_key() == self.inner().base_key(),
            forall|k: Seq<u8>, store: Map<Seq<u8>, Seq<u8>>| #[trigger] r.inner().is_live(k, store) == self.inner().is_live(k, store),
            forall|k: Seq<u8>, store: Map<Seq<u8>, Seq<u8>>| #[trigger] r.inner().entry_hash(k, store) == self.inner().entry_hash(k, store),
    {
        CollectionView { collection: self.collection.clone_unchecked(), marker: std::marker::PhantomData }
    }

    /// Visits the existing indices in the order of their encodings while `f` accepts them, and
    /// returns those it accepted; an error where a visited key encodes no index.
    pub fn for_each_index_while<F: Fn(&I) -> bool>(&self, store: &MemoryStore, f: F) -> (r: Result<Vec<I>, ViewError>)
        requires
            self.inner().wf(),
            store.wf(),
            forall|i: &I| #[trigger] f.requires((i,)),
        ensures
            r matches Ok(v) ==> v@.map_values(|i: I| i.key_bytes()) == sorted_keys(self.live_indices(store@)).take(v@.len() as int)
                && forall|j: int| 0 <= j < v@.len() ==> f.ensures((&(#[trigger] v@[j]),), true),
            r is Ok && r->Ok_0@.len() < sorted_keys(self.live_indices(store@)).len() ==> exists|k: I|
                k.key_bytes() == sorted_keys(self.live_indices(store@))[r->Ok_0@.len() as int] && #[trigger] f.ensures((&k,), false),
            (forall|k: Seq<u8>| self.live_indices(store@).contains(k) ==> I::is_key_encoding(k)) ==> r is Ok,
    {
        let keys = self.collection.keys(store);
        let ghost q = byte_seqs(keys@);
        proof {
            let c = sorted_keys(self.live_indices(store@));
            assert(lex_sorted(c) && c.to_set() == self.live_indices(store@));
            lemma_sorted_unique(c, q);
        }
        let mut out: Vec<I> = Vec::new();
        let mut i: usize = 0;
        while i < keys.len()
            invariant
                i <= keys.len(),
                out@.len() == i,
                q == byte_seqs(keys@),
                q == sorted_keys(self.live_indices(store@)),
                q.to_set() == self.live_indices(store@),
                out@.map_values(|x: I| x.key_bytes()) == q.take(i as int),
                forall|k: &I| #[trigger] f.requires((k,)),
                forall|j: int| 0 <= j < out@.len() ==> f.ensures((&(#[trigger] out@[j]),), true),
            decreases keys.len() - i,
        {
            assert(q[i as int] == keys@[i as int]@);
            let index = match I::from_key_bytes(keys[i].as_slice()) {
                Ok(index) => index,
                Err(e) => {
                    proof {
                        assert(q.to_set().contains(q[i as int]));
                    }
                    return Err(e);
                },
            };
            let accepted = f(&index);
            if !accepted {
                return Ok(out);
            }
            let ghost prev = out@;
            let ghost ib = index.key_bytes();
            out.push(index);
            proof {
                assert(out@.map_values(|x: I| x.key_bytes()) =~= prev.map_values(|x: I| x.key_bytes()).push(ib));
                assert(q.take(i + 1) =~= q.take(i as int).push(q[i as int]));
                assert forall|j: int| 0 <= j < out@.len() implies f.ensures((&(#[trigger] out@[j]),), true) by {
                    if j < prev.len() {
                        assert(out@[j] == prev[j]);
                    }
                }
            }
            i = i + 1;
        }
        Ok(out)
    }

    /// Loads the collection kept under `context`.
    pub fn load(context: Vec<u8>, store: &MemoryStore) -> (r: CollectionView<I, W>)
        requires
            store.wf(),
        ensures
            r.inner().is_loaded_from(context@, store@),
    {
        CollectionView { collection: ByteCollectionView::load(context, store), marker: std::marker::PhantomData }
    }

    /// Discards the pending changes.
    pub fn rollback(&mut self)
        ensures
            final(self).inner().wf(),
            final(self).inner().base_key() == old(self).inner().base_key(),
            !final(self).inner().deletes_storage_first(),
            final(self).inner().pending() == Map::<Seq<u8>, Update<W>>::empty(),
            final(self).inner().cached_hash_of() == old(self).inner().stored_hash_of(),
    {
        self.collection.rollback();
    }

    /// Marks the collection to be emptied on the next flush.
    pub fn clear(&mut self)
        ensures
            final(self).inner().wf(),
            final(self).inner().base_key() == old(self).inner().base_key(),
            final(self).inner().deletes_storage_first(),
            final(self).inner().pending() == Map::<Seq<u8>, Update<W>>::empty(),
            final(self).inner().cached_hash_of() is None,
    {
        self.collection.clear();
    }

    /// Appends the operations that persist the pending changes.
    pub fn flush(&mut self, batch: &mut Batch)
        requires
            old(self).inner().wf(),
        ensures
            final(self).inner().wf(),
            final(self).inner().base_key() == old(self).inner().base_key(),
            final(self).inner().pending() == Map::<Seq<u8>, Update<W>>::empty(),
            final(batch).operations@.take(old(batch).operations@.len() as int) == old(batch).operations@,
            ops_under(final(batch).operations@, old(batch).operations@.len() as int, old(self).inner().base_key()),
    {
        self.collection.flush(batch);
    }

    /// The sub-view at `index`, created if absent, for modification.
    pub fn load_entry_mut(&mut self, index: &I, store: &MemoryStore) -> (r: &mut W)
        requires
            old(self).inner().wf(),
            store.wf(),
        ensures
            (*r).inv(),
            (*final(r)).context_of() == (*r).context_of() && (*final(r)).inv() ==> final(self).inner().wf(),
            final(self).inner().base_key() == old(self).inner().base_key(),
            final(self).inner().pending() == old(self).inner().pending().insert(index.key_bytes(), Update::Value(*final(r))),
            final(self).inner().deletes_storage_first() == old(self).inner().deletes_storage_first(),
            final(self).inner().cached_hash_of() is None,
    {
        let short_key = index.to_key_bytes();
        self.collection.load_entry_mut(short_key, store)
    }

    /// The sub-view at `index`, created if absent, for reading.
    pub fn load_entry_or_insert(&mut self, index: &I, store: &MemoryStore) -> (r: &W)
        requires
            old(self).inner().wf(),
            store.wf(),
        ensures
            final(self).inner().wf(),
            final(self).inner().base_key() == old(self).inner().base_key(),
            final(self).inner().pending()[index.key_bytes()] == Update::Value(*r),
            forall|k: Seq<u8>, st: Map<Seq<u8>, Seq<u8>>| #[trigger] final(self).inner().is_live(k, st)
                == (k == index.key_bytes() || old(self).inner().is_live(k, st)),
    {
        let short_key = index.to_key_bytes();
        self.collection.load_entry_or_insert(short_key, store)
    }

    /// The sub-view at `index` for reading, or `None` where it does not exist.
    pub fn try_load_entry(&mut self, index: &I, store: &MemoryStore) -> (r: Option<&W>)
        requires
            old(self).inner().wf(),
            store.wf(),
        ensures
            final(self).inner().wf(),
            final(self).inner().base_key() == old(self).inner().base_key(),
            final(self).inner().cached_hash_of() == old(self).inner().cached_hash_of(),
            r is Some <==> old(self).inner().is_live(index.key_bytes(), store@),
            forall|k: Seq<u8>| #[trigger] final(self).inner().is_live(k, store@) == old(self).inner().is_live(k, store@),
    {
        let short_key = index.to_key_bytes();
        self.collection.try_load_entry(short_key, store)
    }

    /// Resets the entry at `index` to an emptied sub-view.
    pub fn reset_entry_to_default(&mut self, index: &I, store: &MemoryStore)
        requires
            old(self).inner().wf(),
            store.wf(),
        ensures
            final(self).inner().wf(),
            final(self).inner().base_key() == old(self).inner().base_key(),
            final(self).inner().pending()[index.key_bytes()]->Value_0.is_cleared(),
            forall|k: Seq<u8>, st: Map<Seq<u8>, Seq<u8>>| #[trigger] final(self).inner().is_live(k, st)
                == (k == index.key_bytes() || old(self).inner().is_live(k, st)),
    {
        let short_key = index.to_key_bytes();
        self.collection.reset_entry_to_default(short_key, store)
    }

    /// Removes the entry at `index`; nothing changes where it is absent.
    pub fn remove_entry(&mut self, index: &I)
        requires
            old(self).inner().wf(),
        ensures
            final(self).inner().wf(),
            final(self).inner().base_key() == old(self).inner().base_key(),
            forall|k: Seq<u8>, st: Map<Seq<u8>, Seq<u8>>| #[trigger] final(self).inner().is_live(k, st)
                == (k != index.key_bytes() && old(self).inner().is_live(k, st)),
    {
        let short_key = index.to_key_bytes();
        self.collection.remove_entry(short_key)
    }

    /// Whether the entry at `index` exists.
    pub fn contains_key(&self, index: &I, store: &MemoryStore) -> (r: bool)
        requires
            self.inner().wf(),
            store.wf(),
        ensures
            r == self.inner().is_live(index.key_bytes(), store@),
    {
        let short_key = index.to_key_bytes();
        self.collection.contains_key(short_key.as_slice(), store)
    }

    /// The existing indices in the order of their encodings; an error where a stored key
    /// encodes no index.
    pub fn indices(&self, store: &MemoryStore) -> (r: Result<Vec<I>, ViewError>)
        requires
            self.inner().wf(),
            store.wf(),
        ensures
            r is Ok <==> forall|k: Seq<u8>| self.live_indices(store@).contains(k) ==> I::is_key_encoding(k),
            r matches Ok(v) ==> lex_sorted(v@.map_values(|i: I| i.key_bytes()))
                && v@.map_values(|i: I| i.key_bytes()).to_set() == self.live_indices(store@),
    {
        let keys = self.collection.keys(store);
        let ghost q = byte_seqs(keys@);
        let mut out: Vec<I> = Vec::new();
        let mut i: usize = 0;
        while i < keys.len()
            invariant
                i <= keys.len(),
                q == byte_seqs(keys@),
                lex_sorted(q),
                q.to_set() == self.live_indices(store@),
                out@.map_values(|x: I| x.key_bytes()) == q.take(i as int),
                forall|j: int| 0 <= j < i ==> I::is_key_encoding(#[trigger] q[j]),
            decreases keys.len() - i,
        {
            assert(q[i as int] == keys@[i as int]@);
            match I::from_key_bytes(keys[i].as_slice()) {
                Ok(index) => {
                    let ghost prev = out@;
                    let ghost ib = index.key_bytes();
                    out.push(index);
                    assert(out@.map_values(|x: I| x.key_bytes()) =~= prev.map_values(|x: I| x.key_bytes()).push(ib));
                    assert(q.take(i + 1) =~= q.take(i as int).push(q[i as int]));
                },
                Err(e) => {
                    proof {
                        assert(!I::is_key_encoding(q[i as int]));
                        assert(q.to_set().contains(q[i as int]));
                    }
                    return Err(e);
                },
            }
            i = i + 1;
        }
        assert(q.take(keys.len() as int) =~= q);
        proof {
            assert forall|k: Seq<u8>| self.live_indices(store@).contains(k) implies I::is_key_encoding(k) by {
                let j = choose|j: int| 0 <= j < q.len() && q[j] == k;
            }
        }
        Ok(out)
    }

    /// The digest of the contents, from the cache where it is known.
    pub fn hash_mut(&mut self, store: &MemoryStore) -> (r: Vec<u8>)
        requires
            old(self).inner().wf(),
            store.wf(),
        ensures
            final(self).inner().wf(),
            old(self).inner().cached_hash_of() matches Some(h) ==> r@ == h,
            old(self).inner().cached_hash_of() is None ==> r@ == old(self).inner().contents_hash(store@),
    {
        self.collection.hash_mut(store)
    }

    /// The digest of the contents, from the cache where it is known.
    pub fn hash(&self, store: &MemoryStore) -> (r: Vec<u8>)
        requires
            self.inner().wf(),
            store.wf(),
        ensures
            self.inner().cached_hash_of() matches Some(h) ==> r@ == h,
            self.inner().cached_hash_of() is None ==> r@ == self.inner().contents_hash(store@),
    {
        self.collection.hash(store)
    }
}

/// A collection of sub-views of type `W` indexed by keys of type `I`, stored under their
/// order-preserving encoding, so that they are visited in their own order.
pub struct CustomCollectionView<I, W> {
    collection: ByteCollectionView<W>,
    marker: std::marker::PhantomData<I>,
}

impl<I: CustomSerialize, W: StoredView> CustomCollectionView<I, W> {
    /// The byte-keyed collection underneath.
    pub closed spec fn inner(&self) -> ByteCollectionView<W> {
        self.collection
    }

    /// The existing indices, as their encodings.
    pub open spec fn live_indices(&self, store: Map<Seq<u8>, Seq<u8>>) -> Set<Seq<u8>> {
        self.inner().live_keys(store)
    }

    /// A copy of the collection with the same pending state.
    pub fn clone_unchecked(&self) -> (r: CustomCollectionView<I, W>)
        requires
            self.inner().wf(),
        ensures
            r.inner().wf(),
            r.inner().base_key() == self.inner().base_key(),
            forall|k: Seq<u8>, store: Map<Seq<u8>, Seq<u8>>| #[trigger] r.inner().is_live(k, store) == self.inner().is_live(k, store),
            forall|k: Seq<u8>, store: Map<Seq<u8>, Seq<u8>>| #[trigger] r.inner().entry_hash(k, store) == self.inner().entry_hash(k, store),
    {
        CustomCollectionView { collection: self.collection.clone_unchecked(), marker: std::marker::PhantomData }
    }

    /// Visits the existing indices in the order of their encodings while `f` accepts them, and
    /// returns those it accepted; an error where a visited key encodes no index.
    pub fn for_each_index_while<F: Fn(&I) -> bool>(&self, store: &MemoryStore, f: F) -> (r: Result<Vec<I>, ViewError>)
        requires
            self.inner().wf(),
            store.wf(),
            forall|i: &I| #[trigger] f.requires((i,)),
        ensures
            r matches Ok(v) ==> v@.map_values(|i: I| i.custom_bytes()) == sorted_keys(self.live_indices(store@)).take(v@.len() as int)
                && forall|j: int| 0 <= j < v@.len() ==> f.ensures((&(#[trigger] v@[j]),), true),
            r is Ok && r->Ok_0@.len() < sorted_keys(self.live_indices(store@)).len() ==> exists|k: I|
                k.custom_bytes() == sorted_keys(self.live_indices(store@))[r->Ok_0@.len() as int] && #[trigger] f.ensures((&k,), false),
            (forall|k: Seq<u8>| self.live_indices(store@).contains(k) ==> I::is_encoding(k)) ==> r is Ok,
    {
        let keys = self.collection.keys(store);
        let ghost q = byte_seqs(keys@);
        proof {
            let c = sorted_keys(self.live_indices(store@));
            assert(lex_sorted(c) && c.to_set() == self.live_indices(store@));
            lemma_sorted_unique(c, q);
        }
        let mut out: Vec<I> = Vec::new();
        let mut i: usize = 0;
        while i < keys.len()
            invariant
                i <= keys.len(),
                out@.len() == i,
                q == byte_seqs(keys@),
                q == sorted_keys(self.live_indices(store@)),
                q.to_set() == self.live_indices(store@),
                out@.map_values(|x: I| x.custom_bytes()) == q.take(i as int),
                forall|k: &I| #[trigger] f.requires((k,)),
                forall|j: int| 0 <= j < out@.len() ==> f.ensures((&(#[trigger] out@[j]),), true),
            decreases keys.len() - i,
        {
            assert(q[i as int] == keys@[i as int]@);
            let index = match I::from_custom_bytes(keys[i].as_slice()) {
                Ok(index) => index,
                Err(e) => {
                    proof {
                        assert(q.to_set().contains(q[i as int]));
                    }
                    return Err(e);
                },
            };
            let accepted = f(&index);
            if !accepted {
                return Ok(out);
            }
            let ghost prev = out@;
            let ghost ib = index.custom_bytes();
            out.push(index);
            proof {
                assert(out@.map_values(|x: I| x.custom_bytes()) =~= prev.map_values(|x: I| x.custom_bytes()).push(ib));
                assert(q.take(i + 1) =~= q.take(i as int).push(q[i as int]));
                assert forall|j: int| 0 <= j < out@.len() implies f.ensures((&(#[trigger] out@[j]),), true) by {
                    if j < prev.len() {
                        assert(out@[j] == prev[j]);
                    }
                }
            }
            i = i + 1;
        }
        Ok(out)
    }

    /// Loads the collection kept under `context`.
    pub fn load(context: Vec<u8>, store: &MemoryStore) -> (r: CustomCollectionView<I, W>)
        requires
            store.wf(),
        ensures
            r.inner().is_loaded_from(context@, store@),
    {
        CustomCollectionView { collection: ByteCollectionView::load(context, store), marker: std::marker::PhantomData }
    }

    /// Discards the pending changes.
    pub fn rollback(&mut self)
        ensures
            final(self).inner().wf(),
            final(self).inner().base_key() == old(self).inner().base_key(),
            !final(self).inner().deletes_storage_first(),
            final(self).inner().pending() == Map::<Seq<u8>, Update<W>>::empty(),
            final(self).inner().cached_hash_of() == old(self).inner().stored_hash_of(),
    {
        self.collection.rollback();
    }

    /// Marks the collection to be emptied on the next flush.
    pub fn clear(&mut self)
        ensures
            final(self).inner().wf(),
            final(self).inner().base_key() == old(self).inner().base_key(),
            final(self).inner().deletes_storage_first(),
            final(self).inner().pending() == Map::<Seq<u8>, Update<W>>::empty(),
            final(self).inner().cached_hash_of() is None,
    {
        self.collection.clear();
    }

    /// Appends the operations that persist the pending changes.
    pub fn flush(&mut self, batch: &mut Batch)
        requires
            old(self).inner().wf(),
        ensures
            final(self).inner().wf(),
            final(self).inner().base_key() == old(self).inner().base_key(),
            final(self).inner().pending() == Map::<Seq<u8>, Update<W>>::empty(),
            final(batch).operations@.take(old(batch).operations@.len() as int) == old(batch).operations@,
            ops_under(final(batch).operations@, old(batch).operations@.len() as int, old(self).inner().base_key()),
    {
        self.collection.flush(batch);
    }

    /// The sub-view at `index`, created if absent, for modification.
    pub fn load_entry_mut(&mut self, index: &I, store: &MemoryStore) -> (r: &mut W)
        requires
            old(self).inner().wf(),
            store.wf(),
        ensures
            (*r).inv(),
            (*final(r)).context_of() == (*r).context_of() && (*final(r)).inv() ==> final(self).inner().wf(),
            final(self).inner().base_key() == old(self).inner().base_key(),
            final(self).inner().pending() == old(self).inner().pending().insert(index.custom_bytes(), Update::Value(*final(r))),
            final(self).inner().deletes_storage_first() == old(self).inner().deletes_storage_first(),
            final(self).inner().cached_hash_of() is None,
    {
        let short_key = index.to_custom_bytes();
        self.collection.load_entry_mut(short_key, store)
    }

    /// The sub-view at `index`, created if absent, for reading.
    pub fn load_entry_or_insert(&mut self, index: &I, store: &MemoryStore) -> (r: &W)
        requires
            old(self).inner().wf(),
            store.wf(),
        ensures
            final(self).inner().wf(),
            final(self).inner().base_key() == old(self).inner().base_key(),
            final(self).inner().pending()[index.custom_bytes()] == Update::Value(*r),
            forall|k: Seq<u8>, st: Map<Seq<u8>, Seq<u8>>| #[trigger] final(self).inner().is_live(k, st)
                == (k == index.custom_bytes() || old(self).inner().is_live(k, st)),
    {
        let short_key = index.to_custom_bytes();
        self.collection.load_entry_or_insert(short_key, store)
    }

    /// The sub-view at `index` for reading, or `None` where it does not exist.
    pub fn try_load_entry(&mut self, index: &I, store: &MemoryStore) -> (r: Option<&W>)
        requires
            old(self).inner().wf(),
            store.wf(),
        ensures
            final(self).inner().wf(),
            final(self).inner().base_key() == old(self).inner().base_key(),
            final(self).inner().cached_hash_of() == old(self).inner().cached_hash_of(),
            r is Some <==> old(self).inner().is_live(index.custom_bytes(), store@),
            forall|k: Seq<u8>| #[trigger] final(self).inner().is_live(k, store@) == old(self).inner().is_live(k, store@),
    {
        let short_key = index.to_custom_bytes();
        self.collection.try_load_entry(short_key, store)
    }

    /// Resets the entry at `index` to an emptied sub-view.
    pub fn reset_entry_to_default(&mut self, index: &I, store: &MemoryStore)
        requires
            old(self).inner().wf(),
            store.wf(),
        ensures
            final(self).inner().wf(),
            final(self).inner().base_key() == old(self).inner().base_key(),
            final(self).inner().pending()[index.custom_bytes()]->Value_0.is_cleared(),
            forall|k: Seq<u8>, st: Map<Seq<u8>, Seq<u8>>| #[trigger] final(self).inner().is_live(k, st)
                == (k == index.custom_bytes() || old(self).inner().is_live(k, st)),
    {
        let short_key = index.to_custom_bytes();
        self.collection.reset_entry_to_default(short_key, store)
    }

    /// Removes the entry at `index`; nothing changes where it is absent.
    pub fn remove_entry(&mut self, index: &I)
        requires
            old(self).inner().wf(),
        ensures
            final(self).inner().wf(),
            final(self).inner().base_key() == old(self).inner().base_key(),
            forall|k: Seq<u8>, st: Map<Seq<u8>, Seq<u8>>| #[trigger] final(self).inner().is_live(k, st)
                == (k != index.custom_bytes() && old(self).inner().is_live(k, st)),
    {
        let short_key = index.to_custom_bytes();
        self.collection.remove_entry(short_key)
    }

    /// Whether the entry at `index` exists.
    pub fn contains_key(&self, index: &I, store: &MemoryStore) -> (r: bool)
        requires
            self.inner().wf(),
            store.wf(),
        ensures
            r == self.inner().is_live(index.custom_bytes(), store@),
    {
        let short_key = index.to_custom_bytes();
        self.collection.contains_key(short_key.as_slice(), store)
    }

    /// The existing indices in the order of their encodings; an error where a stored key
    /// encodes no index.
    pub fn indices(&self, store: &MemoryStore) -> (r: Result<Vec<I>, ViewError>)
        requires
            self.inner().wf(),
            store.wf(),
        ensures
            r is Ok <==> forall|k: Seq<u8>| self.live_indices(store@).contains(k) ==> I::is_encoding(k),
            r matches Ok(v) ==> lex_sorted(v@.map_values(|i: I| i.custom_bytes()))
                && v@.map_values(|i: I| i.custom_bytes()).to_set() == self.live_indices(store@),
    {
        let keys = self.collection.keys(store);
        let ghost q = byte_seqs(keys@);
        let mut out: Vec<I> = Vec::new();
        let mut i: usize = 0;
        while i < keys.len()
            invariant
                i <= keys.len(),
                q == byte_seqs(keys@),
                lex_sorted(q),
                q.to_set() == self.live_indices(store@),
                out@.map_values(|x: I| x.custom_bytes()) == q.take(i as int),
                forall|j: int| 0 <= j < i ==> I::is_encoding(#[trigger] q[j]),
            decreases keys.len() - i,
        {
            assert(q[i as int] == keys@[i as int]@);
            match I::from_custom_bytes(keys[i].as_slice()) {
                Ok(index) => {
                    let ghost prev = out@;
                    let ghost ib = index.custom_bytes();
                    out.push(index);
                    assert(out@.map_values(|x: I| x.custom_bytes()) =~= prev.map_values(|x: I| x.custom_bytes()).push(ib));
                    assert(q.take(i + 1) =~= q.take(i as int).push(q[i as int]));
                },
                Err(e) => {
                    proof {
                        assert(!I::is_encoding(q[i as int]));
                        assert(q.to_set().contains(q[i as int]));
                    }
                    return Err(e);
                },
            }
            i = i + 1;
        }
        assert(q.take(keys.len() as int) =~= q);
        proof {
            assert forall|k: Seq<u8>| self.live_indices(store@).contains(k) implies I::is_encoding(k) by {
                let j = choose|j: int| 0 <= j < q.len() && q[j] == k;
            }
        }
        Ok(out)
    }

    /// The digest of the contents, from the cache where it is known.
    pub fn hash_mut(&mut self, store: &MemoryStore) -> (r: Vec<u8>)
        requires
            old(self).inner().wf(),
            store.wf(),
        ensures
            final(self).inner().wf(),
            old(self).inner().cached_hash_of() matches Some(h) ==> r@ == h,
            old(self).inner().cached_hash_of() is None ==> r@ == old(self).inner().contents_hash(store@),
    {
        self.collection.hash_mut(store)
    }

    /// The digest of the contents, from the cache where it is known.
    pub fn hash(&self, store: &MemoryStore) -> (r: Vec<u8>)
        requires
            self.inner().wf(),
            store.wf(),
        ensures
            self.inner().cached_hash_of() matches Some(h) ==> r@ == h,
            self.inner().cached_hash_of() is None ==> r@ == self.inner().contents_hash(store@),
    {
        self.collection.hash(store)
    }
}

} // verus!
