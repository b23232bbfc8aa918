//! A view that holds a queue of byte-string records, kept in insertion order.

use vstd::prelude::*;
use crate::collection_view::hash_preimage;
use crate::custom_key::{be_bytes, be_u64, be_value, from_be_u64};
use crate::order::byte_seqs;
use crate::store::{is_prefix, Batch, MemoryStore};
use crate::views::{base_tag, base_tag_index, sha3_256, sha3_256_of, tag_index_key, tag_key, StoredView};

verus! {

/// The key under which a queue keeps its number of records.
pub const TAG_COUNT: u8 = 1;

/// The key prefix under which a queue keeps its records, by position.
pub const TAG_RECORD: u8 = 2;

/// The number of records a store holds for the queue at `context`: the 8-byte count, or zero.
pub open spec fn stored_count(context: Seq<u8>, store: Map<Seq<u8>, Seq<u8>>) -> nat {
    let k = tag_key(context, TAG_COUNT);
    if store.contains_key(k) && store[k].len() == 8 { be_value(store[k]) } else { 0 }
}

/// The `i`-th record a store holds for the queue at `context`, empty where it is missing.
pub open spec fn stored_record(context: Seq<u8>, store: Map<Seq<u8>, Seq<u8>>, i: nat) -> Seq<u8> {
    let k = tag_index_key(context, TAG_RECORD, be_bytes(i, 8));
    if store.contains_key(k) { store[k] } else { Seq::empty() }
}

/// The records a store holds for the queue at `context`.
pub open spec fn stored_records(context: Seq<u8>, store: Map<Seq<u8>, Seq<u8>>) -> Seq<Seq<u8>> {
    Seq::new(stored_count(context, store), |i: int| stored_record(context, store, i as nat))
}

/// The digest of a list of records: their count, then each with its length.
pub open spec fn records_hash(records: Seq<Seq<u8>>) -> Seq<u8> {
    sha3_256_of(hash_preimage(records, |r: Seq<u8>| Seq::<u8>::empty()))
}

/// A copy of the records.
fn copy_records(v: &Vec<Vec<u8>>) -> (r: Vec<Vec<u8>>)
    ensures
        byte_seqs(r@) == byte_seqs(v@),
{
    let mut r: Vec<Vec<u8>> = Vec::new();
    let mut i: usize = 0;
    while i < v.len()
        invariant
            i <= v.len(),
            byte_seqs(r@) == byte_seqs(v@).take(i as int),
        decreases v.len() - i,
    {
        let ghost prev = r@;
        let c = v[i].clone();
        r.push(c);
        proof {
            assert(r@ == prev.push(c));
            assert(byte_seqs(r@) =~= byte_seqs(prev).push(c@));
            assert(byte_seqs(v@).take(i + 1) =~= byte_seqs(v@).take(i as int).push(v@[i as int]@));
        }
        i = i + 1;
    }
    assert(byte_seqs(v@).take(v.len() as int) =~= byte_seqs(v@));
    r
}

/// A queue of byte-string records: push at the back, delete at the front, read and replace in
/// place. No operation reorders the records that stay.
pub struct QueueView {
    context: Vec<u8>,
    stored: Vec<Vec<u8>>,
    values: Vec<Vec<u8>>,
    dirty: bool,
}

impl QueueView {
    /// The records, front first.
    pub closed spec fn elements(&self) -> Seq<Seq<u8>> {
        byte_seqs(self.values@)
    }

    /// Appends a record at the back.
    pub fn push_back(&mut self, record: Vec<u8>)
        ensures
            final(self).elements() == old(self).elements().push(record@),
            final(self).context_of() == old(self).context_of(),
            final(self).inv(),
    {
        self.values.push(record);
        self.dirty = true;
        assert(byte_seqs(self.values@) =~= byte_seqs(old(self).values@).push(record@));
    }

    /// Removes the front record, if any.
    pub fn delete_front(&mut self)
        ensures
            final(self).elements() == (if old(self).elements().len() > 0 {
                old(self).elements().skip(1)
            } else {
                old(self).elements()
            }),
            final(self).context_of() == old(self).context_of(),
            final(self).inv(),
    {
        if self.values.len() > 0 {
            self.values.remove(0);
            self.dirty = true;
            assert(byte_seqs(self.values@) =~= byte_seqs(old(self).values@).skip(1));
        }
    }

    /// The number of records.
    pub fn count(&self) -> (r: usize)
        ensures
            r == self.elements().len(),
    {
        self.values.len()
    }

    /// The record at position `i`, front first.
    pub fn get(&self, i: usize) -> (r: &Vec<u8>)
        requires
            i < self.elements().len(),
        ensures
            r@ == self.elements()[i as int],
    {
        &self.values[i]
    }

    /// Replaces the record at position `i`.
    pub fn set(&mut self, i: usize, record: Vec<u8>)
        requires
            i < old(self).elements().len(),
        ensures
            final(self).elements() == old(self).elements().update(i as int, record@),
            final(self).context_of() == old(self).context_of(),
            final(self).inv(),
    {
        self.values.set(i, record);
        self.dirty = true;
        assert(byte_seqs(self.values@) =~= byte_seqs(old(self).values@).update(i as int, record@));
    }

    /// A copy of the records, front first.
    pub fn elements_vec(&self) -> (r: Vec<Vec<u8>>)
        ensures
            byte_seqs(r@) == self.elements(),
    {
        copy_records(&self.values)
    }
}

impl StoredView for QueueView {
    closed spec fn context_of(&self) -> Seq<u8> {
        self.context@
    }

    closed spec fn inv(&self) -> bool {
        true
    }

    closed spec fn pending_free(&self) -> bool {
        !self.dirty && byte_seqs(self.values@) == byte_seqs(self.stored@)
    }

    closed spec fn is_cleared(&self) -> bool {
        self.values@.len() == 0
    }

    closed spec fn hash_of(&self, store: Map<Seq<u8>, Seq<u8>>) -> Seq<u8> {
        records_hash(byte_seqs(self.values@))
    }

    closed spec fn loaded_hash(context: Seq<u8>, store: Map<Seq<u8>, Seq<u8>>) -> Seq<u8> {
        records_hash(stored_records(context, store))
    }

    fn load(context: Vec<u8>, store: &MemoryStore) -> (r: QueueView) {
        let count_key = base_tag(&context, TAG_COUNT);
        let count: u64 = match store.read_value(count_key.as_slice()) {
            Some(v) => if v.len() == 8 { from_be_u64(v.as_slice()) } else { 0 },
            None => 0,
        };
        assert(count == stored_count(context@, store@));
        let mut records: Vec<Vec<u8>> = Vec::new();
        let mut i: u64 = 0;
        while i < count
            invariant
                i <= count,
                store.wf(),
                count == stored_count(context@, store@),
                byte_seqs(records@) == stored_records(context@, store@).take(i as int),
            decreases count - i,
        {
            let key = base_tag_index(&context, TAG_RECORD, be_u64(i).as_slice());
            let record = match store.read_value(key.as_slice()) {
                Some(v) => v,
                None => Vec::new(),
            };
            assert(record@ == stored_record(context@, store@, i as nat));
            let ghost prev = records@;
            let ghost rv = record@;
            records.push(record);
            proof {
                assert(byte_seqs(records@) =~= byte_seqs(prev).push(rv));
                assert(stored_records(context@, store@).take(i + 1) =~= stored_records(context@, store@).take(i as int).push(rv));
            }
            i = i + 1;
        }
        assert(stored_records(context@, store@).take(count as int) =~= stored_records(context@, store@));
        let values = copy_records(&records);
        QueueView { context, stored: records, values, dirty: false }
    }

    fn rollback(&mut self) {
        self.values = copy_records(&self.stored);
        self.dirty = false;
    }

    fn clear(&mut self) {
        self.values = Vec::new();
        self.dirty = true;
    }

    fn flush(&mut self, batch: &mut Batch) {
        let ghost start = batch.operations@;
        let ghost ctx = self.context@;
        if self.dirty {
            batch.delete_key_prefix(self.context.clone());
            proof {
                assert(is_prefix(ctx, ctx)) by {
                    assert(ctx.take(ctx.len() as int) =~= ctx);
                }
            }
            let count_key = base_tag(&self.context, TAG_COUNT);
            batch.put_key_value_bytes(count_key, be_u64(self.values.len() as u64));
            proof {
                assert(is_prefix(ctx, tag_key(ctx, TAG_COUNT))) by {
                    assert(tag_key(ctx, TAG_COUNT).take(ctx.len() as int) =~= ctx);
                }
            }
            let mut i: usize = 0;
            while i < self.values.len()
                invariant
                    i <= self.values.len(),
                    self.context@ == ctx,
                    batch.operations@.len() >= start.len(),
                    batch.operations@.take(start.len() as int) == start,
                    crate::views::ops_under(batch.operations@, start.len() as int, ctx),
                decreases self.values.len() - i,
            {
                let ghost before = batch.operations@;
                let key = base_tag_index(&self.context, TAG_RECORD, be_u64(i as u64).as_slice());
                proof {
                    assert(key@.take(ctx.len() as int) =~= ctx);
                }
                batch.put_key_value_bytes(key, self.values[i].clone());
                proof {
                    assert(batch.operations@.take(start.len() as int) =~= before.take(start.len() as int));
                    assert forall|j: int| start.len() <= j < batch.operations@.len()
                        implies crate::views::op_under(#[trigger] batch.operations@[j], ctx) by {
                        if j < before.len() {
                            assert(batch.operations@[j] == before[j]);
                        }
                    }
                }
                i = i + 1;
            }
        } else {
            assert(batch.operations@.take(start.len() as int) =~= start);
        }
        proof {
            if self.dirty {
                assert(batch.operations@.take(start.len() as int) == start);
            }
        }
        self.stored = copy_records(&self.values);
        self.dirty = false;
    }

    fn clone_unchecked(&self) -> (r: QueueView) {
        let values = copy_records(&self.values);
        assert(values@.len() == byte_seqs(values@).len() && self.values@.len() == byte_seqs(self.values@).len());
        QueueView {
            context: self.context.clone(),
            stored: copy_records(&self.stored),
            values,
            dirty: self.dirty,
        }
    }

    fn hash(&self, store: &MemoryStore) -> (r: Vec<u8>) {
        let mut data: Vec<u8> = Vec::new();
        crate::collection_view::push_le_u64(&mut data, self.values.len() as u64);
        let ghost q = byte_seqs(self.values@);
        let ghost f = |r: Seq<u8>| Seq::<u8>::empty();
        let mut i: usize = 0;
        assert(q.take(0) =~= Seq::<Seq<u8>>::empty());
        while i < self.values.len()
            invariant
                i <= self.values.len(),
                q == byte_seqs(self.values@),
                f == (|r: Seq<u8>| Seq::<u8>::empty()),
                data@ == crate::collection_view::le_bytes(self.values.len() as nat, 8)
                    + crate::collection_view::hash_records(q.take(i as int), f),
            decreases self.values.len() - i,
        {
            let record = &self.values[i];
            crate::collection_view::push_le_u64(&mut data, record.len() as u64);
            crate::collection_view::push_bytes(&mut data, record.as_slice());
            proof {
                assert(q[i as int] == record@);
                assert(q.take(i + 1).drop_last() =~= q.take(i as int));
                assert(q.take(i + 1).last() == record@);
                assert(data@ =~= crate::collection_view::le_bytes(self.values.len() as nat, 8)
                    + crate::collection_view::hash_records(q.take(i + 1), f));
            }
            i = i + 1;
        }
        assert(q.take(self.values.len() as int) =~= q);
        sha3_256(&data)
    }
}

/// A cleared queue holds no record, and a queue always keeps its invariant.
pub proof fn lemma_queue_facts(q: QueueView)
    ensures
        q.is_cleared() ==> q.elements().len() == 0,
        q.inv(),
{
}

} // verus!
