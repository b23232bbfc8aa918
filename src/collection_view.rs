//! A collection of sub-views of one kind, indexed by byte strings, loaded lazily from the store,
//! with changes buffered until flush and a digest over its ordered contents.

use vstd::prelude::*;
use vstd::pervasive::unreached;
use crate::order::{byte_seqs, bytes_equal, insert_sorted, lemma_sorted_unique, lex_sorted, remove_sorted};
use crate::store::{apply_op, apply_ops, is_prefix, Batch, MemoryStore, WriteOp};
use crate::views::{
    base_tag, base_tag_index, op_under, ops_under, sha3_256, sha3_256_of, tag_index_key, tag_key, StoredView,
    TAG_HASH, TAG_INDEX, TAG_SUBVIEW,
};

verus! {

/// A pending change of one entry.
pub enum Update<W> {
    /// The entry is removed.
    Removed,
    /// The entry holds this sub-view.
    Value(W),
}

/// The pending changes that a list with distinct keys holds.
pub open spec fn updates_map<W>(s: Seq<(Vec<u8>, Update<W>)>) -> Map<Seq<u8>, Update<W>> {
    Map::new(
        |k: Seq<u8>| exists|i: int| 0 <= i < s.len() && #[trigger] s[i].0@ == k,
        |k: Seq<u8>| s[choose|i: int| 0 <= i < s.len() && #[trigger] s[i].0@ == k].1,
    )
}

/// The keys of the list are distinct.
pub open spec fn distinct_keys<W>(s: Seq<(Vec<u8>, Update<W>)>) -> bool {
    forall|i: int, j: int| 0 <= i < j < s.len() ==> #[trigger] s[i].0@ != #[trigger] s[j].0@
}

proof fn lemma_prefix_refl(p: Seq<u8>)
    ensures
        is_prefix(p, p),
{
    assert(p.take(p.len() as int) =~= p);
}

proof fn lemma_prefix_tag(base: Seq<u8>, tag: u8, k: Seq<u8>)
    ensures
        is_prefix(base, tag_index_key(base, tag, k)),
{
    assert(tag_index_key(base, tag, k).take(base.len() as int) =~= base);
}

proof fn lemma_op_under_trans(op: WriteOp, a: Seq<u8>, b: Seq<u8>)
    requires
        is_prefix(a, b),
        op_under(op, b),
    ensures
        op_under(op, a),
{
    let k = match op {
        WriteOp::Put { key, value } => key@,
        WriteOp::Delete { key } => key@,
        WriteOp::DeletePrefix { key_prefix } => key_prefix@,
    };
    assert(k.take(a.len() as int) =~= k.take(b.len() as int).take(a.len() as int));
}

proof fn lemma_updates_map_replace<W>(s_old: Seq<(Vec<u8>, Update<W>)>, s_new: Seq<(Vec<u8>, Update<W>)>, i: int)
    requires
        distinct_keys(s_old),
        distinct_keys(s_new),
        0 <= i < s_new.len(),
        s_new.len() == s_old.len() || (s_new.len() == s_old.len() + 1 && i == s_old.len()),
        forall|j: int| 0 <= j < s_new.len() && j != i ==> s_new[j] == s_old[j],
        i < s_old.len() ==> s_old[i].0@ == s_new[i].0@,
    ensures
        updates_map(s_new) == updates_map(s_old).insert(s_new[i].0@, s_new[i].1),
{
    let k = s_new[i].0@;
    assert forall|x: Seq<u8>| #[trigger] updates_map(s_new).contains_key(x) == updates_map(s_old).insert(k, s_new[i].1).contains_key(x) by {
        if updates_map(s_new).contains_key(x) {
            let j = choose|j: int| 0 <= j < s_new.len() && #[trigger] s_new[j].0@ == x;
            if j != i { assert(s_new[j] == s_old[j]); }
        }
        if updates_map(s_old).contains_key(x) {
            let j = choose|j: int| 0 <= j < s_old.len() && #[trigger] s_old[j].0@ == x;
            if j != i { assert(s_new[j] == s_old[j]); } else { assert(s_new[j].0@ == x); }
        }
        if x == k {
            assert(s_new[i].0@ == x);
        }
    }
    assert forall|x: Seq<u8>| #[trigger] updates_map(s_new).contains_key(x) implies updates_map(s_new)[x] == updates_map(s_old).insert(k, s_new[i].1)[x] by {
        let j = choose|j: int| 0 <= j < s_new.len() && #[trigger] s_new[j].0@ == x;
        lemma_updates_map_at(s_new, j);
        if j != i { assert(s_new[j] == s_old[j]); lemma_updates_map_at(s_old, j); }
    }
    assert(updates_map(s_new) =~= updates_map(s_old).insert(k, s_new[i].1));
}

proof fn lemma_updates_map_at<W>(s: Seq<(Vec<u8>, Update<W>)>, i: int)
    requires
        distinct_keys(s),
        0 <= i < s.len(),
    ensures
        updates_map(s).contains_key(s[i].0@),
        updates_map(s)[s[i].0@] == s[i].1,
{
    let k = s[i].0@;
    assert(exists|j: int| 0 <= j < s.len() && #[trigger] s[j].0@ == k);
    let j = choose|j: int| 0 <= j < s.len() && #[trigger] s[j].0@ == k;
    if j != i {
        if j < i {
            assert(s[j].0@ != s[i].0@);
        } else {
            assert(s[i].0@ != s[j].0@);
        }
    }
}

/// `count` bytes of `n`, least significant first.
pub open spec fn le_bytes(n: nat, count: nat) -> Seq<u8>
    decreases count,
{
    if count == 0 {
        Seq::empty()
    } else {
        seq![(n % 256) as u8] + le_bytes(n / 256, (count - 1) as nat)
    }
}

/// For each key in order: its length in 8 bytes, the key, and the digest of its entry.
pub open spec fn hash_records(keys: Seq<Seq<u8>>, entry: spec_fn(Seq<u8>) -> Seq<u8>) -> Seq<u8>
    decreases keys.len(),
{
    if keys.len() == 0 {
        Seq::empty()
    } else {
        hash_records(keys.drop_last(), entry) + le_bytes(keys.last().len(), 8) + keys.last() + entry(keys.last())
    }
}

/// What the digest of a collection is computed over: the number of keys in 8 bytes, then the
/// records of the keys in order.
pub open spec fn hash_preimage(keys: Seq<Seq<u8>>, entry: spec_fn(Seq<u8>) -> Seq<u8>) -> Seq<u8> {
    le_bytes(keys.len(), 8) + hash_records(keys, entry)
}

/// The elements of a finite set of byte strings in lexicographic order.
pub open spec fn sorted_keys(s: Set<Seq<u8>>) -> Seq<Seq<u8>> {
    choose|q: Seq<Seq<u8>>| lex_sorted(q) && q.to_set() == s
}

/// Appends `n` as 8 bytes, least significant first.
pub fn push_le_u64(data: &mut Vec<u8>, n: u64)
    ensures
        final(data)@ == old(data)@ + le_bytes(n as nat, 8),
{
    let mut cur: u64 = n;
    let mut i: usize = 0;
    while i < 8
        invariant
            i <= 8,
            data@ + le_bytes(cur as nat, (8 - i) as nat) == old(data)@ + le_bytes(n as nat, 8),
        decreases 8 - i,
    {
        let ghost prev = data@;
        proof {
            assert(le_bytes(cur as nat, (8 - i) as nat) == seq![(cur as nat % 256) as u8] + le_bytes(cur as nat / 256, (8 - i - 1) as nat));
        }
        data.push((cur % 256) as u8);
        assert(data@ + le_bytes((cur / 256) as nat, (8 - i - 1) as nat) =~= prev + le_bytes(cur as nat, (8 - i) as nat));
        cur = cur / 256;
        i = i + 1;
    }
    assert(data@ =~= data@ + le_bytes(cur as nat, 0));
}

/// Appends the bytes of `s`.
pub fn push_bytes(data: &mut Vec<u8>, s: &[u8])
    ensures
        final(data)@ == old(data)@ + s@,
{
    let mut i: usize = 0;
    while i < s.len()
        invariant
            i <= s.len(),
            data@ == old(data)@ + s@.take(i as int),
        decreases s.len() - i,
    {
        data.push(s[i]);
        i = i + 1;
        assert(data@ =~= old(data)@ + s@.take(i as int));
    }
    assert(s@.take(s.len() as int) =~= s@);
}

/// Applying two runs of operations is applying the first, then the second.
pub proof fn lemma_apply_ops_append(m: Map<Seq<u8>, Seq<u8>>, a: Seq<WriteOp>, b: Seq<WriteOp>)
    ensures
        apply_ops(m, a + b) == apply_ops(apply_ops(m, a), b),
    decreases b.len(),
{
    if b.len() == 0 {
        assert(a + b =~= a);
    } else {
        assert((a + b).drop_last() =~= a + b.drop_last());
        lemma_apply_ops_append(m, a, b.drop_last());
    }
}

/// Whether the index of the collection at `base` holds `x` once `ops` are applied to `m`.
pub open spec fn index_after(m: Map<Seq<u8>, Seq<u8>>, ops: Seq<WriteOp>, base: Seq<u8>, x: Seq<u8>) -> bool {
    apply_ops(m, ops).contains_key(tag_index_key(base, TAG_INDEX, x))
}

/// The digest record of the collection at `base` once `ops` are applied to `m`, if any.
pub open spec fn hash_at(m: Map<Seq<u8>, Seq<u8>>, ops: Seq<WriteOp>, base: Seq<u8>) -> Option<Seq<u8>> {
    let s = apply_ops(m, ops);
    if s.contains_key(tag_key(base, TAG_HASH)) { Some(s[tag_key(base, TAG_HASH)]) } else { None }
}

/// `ops[i]` deletes the index key of `k` and `ops[i + 1]` empties its sub-view prefix.
pub open spec fn removal_at(ops: Seq<WriteOp>, i: int, base: Seq<u8>, k: Seq<u8>) -> bool {
    &&& 0 <= i && i + 1 < ops.len()
    &&& ops[i] matches WriteOp::Delete { key } && key@ == tag_index_key(base, TAG_INDEX, k)
    &&& ops[i + 1] matches WriteOp::DeletePrefix { key_prefix } && key_prefix@ == tag_index_key(base, TAG_SUBVIEW, k)
}

/// `ops[i]` writes the empty marker under the index key of `k`.
pub open spec fn index_put_at(ops: Seq<WriteOp>, i: int, base: Seq<u8>, k: Seq<u8>) -> bool {
    &&& 0 <= i < ops.len()
    &&& ops[i] matches WriteOp::Put { key, value } && key@ == tag_index_key(base, TAG_INDEX, k) && value@.len() == 0
}

/// The operations persist the pending change `u` of the entry `k`: a marker put for a set
/// entry, the index deletion followed by the sub-view prefix deletion for a removed one.
pub open spec fn entry_flushed<W>(ops: Seq<WriteOp>, base: Seq<u8>, k: Seq<u8>, u: Update<W>) -> bool {
    match u {
        Update::Value(_) => exists|i: int| #[trigger] index_put_at(ops, i, base, k),
        Update::Removed => exists|i: int| #[trigger] removal_at(ops, i, base, k),
    }
}

proof fn lemma_entry_flushed_kept<W>(ops: Seq<WriteOp>, ops2: Seq<WriteOp>, base: Seq<u8>, k: Seq<u8>, u: Update<W>)
    requires
        ops2.len() >= ops.len(),
        ops2.take(ops.len() as int) == ops,
        entry_flushed(ops, base, k, u),
    ensures
        entry_flushed(ops2, base, k, u),
{
    match u {
        Update::Value(_) => {
            let i = choose|i: int| #[trigger] index_put_at(ops, i, base, k);
            assert(ops2.take(ops.len() as int)[i] == ops2[i]);
            assert(index_put_at(ops2, i, base, k));
        },
        Update::Removed => {
            let i = choose|i: int| #[trigger] removal_at(ops, i, base, k);
            assert(ops2.take(ops.len() as int)[i] == ops2[i]);
            assert(ops2.take(ops.len() as int)[i + 1] == ops2[i + 1]);
            assert(removal_at(ops2, i, base, k));
        },
    }
}

/// One more operation that does not touch the digest record leaves it as it was.
proof fn lemma_hash_untouched(m: Map<Seq<u8>, Seq<u8>>, ops: Seq<WriteOp>, ops2: Seq<WriteOp>, base: Seq<u8>)
    requires
        ops2.len() == ops.len() + 1,
        ops2.drop_last() == ops,
        match ops2.last() {
            WriteOp::Put { key, value } => key@ != tag_key(base, TAG_HASH),
            WriteOp::Delete { key } => key@ != tag_key(base, TAG_HASH),
            WriteOp::DeletePrefix { key_prefix } => !is_prefix(key_prefix@, tag_key(base, TAG_HASH)),
        },
    ensures
        hash_at(m, ops2, base) == hash_at(m, ops, base),
{
    assert(apply_ops(m, ops2) == apply_op(apply_ops(m, ops), ops2.last()));
}

/// Operations under the sub-view prefix of an entry leave the digest record as it was.
proof fn lemma_hash_after_subview(m: Map<Seq<u8>, Seq<u8>>, before: Seq<WriteOp>, seg: Seq<WriteOp>, base: Seq<u8>, k: Seq<u8>)
    requires
        ops_under(seg, 0, tag_index_key(base, TAG_SUBVIEW, k)),
    ensures
        hash_at(m, before + seg, base) == hash_at(m, before, base),
{
    lemma_apply_ops_append(m, before, seg);
    lemma_index_key_facts(base, k, k);
    crate::laws::lemma_apply_outside(apply_ops(m, before), seg, tag_index_key(base, TAG_SUBVIEW, k), tag_key(base, TAG_HASH));
}

/// Index keys of a collection are never under the sub-view prefix of an entry, nor its hash
/// key, and tell the short keys apart.
proof fn lemma_index_key_facts(base: Seq<u8>, k: Seq<u8>, x: Seq<u8>)
    ensures
        !is_prefix(tag_index_key(base, TAG_SUBVIEW, k), tag_index_key(base, TAG_INDEX, x)),
        !is_prefix(tag_index_key(base, TAG_SUBVIEW, k), tag_key(base, TAG_HASH)),
        tag_key(base, TAG_HASH) != tag_index_key(base, TAG_INDEX, x),
        (tag_index_key(base, TAG_INDEX, x) == tag_index_key(base, TAG_INDEX, k)) == (x == k),
        is_prefix(base, tag_index_key(base, TAG_INDEX, x)),
{
    let ix = tag_index_key(base, TAG_INDEX, x);
    let sk = tag_index_key(base, TAG_SUBVIEW, k);
    assert(ix[base.len() as int] == TAG_INDEX);
    assert(sk[base.len() as int] == TAG_SUBVIEW);
    if is_prefix(sk, ix) {
        assert(ix.take(sk.len() as int)[base.len() as int] == ix[base.len() as int]);
    }
    let hk = tag_key(base, TAG_HASH);
    if is_prefix(sk, hk) {
        assert(hk.take(sk.len() as int)[base.len() as int] == hk[base.len() as int]);
    }
    assert(tag_key(base, TAG_HASH)[base.len() as int] == TAG_HASH);
    if ix == tag_index_key(base, TAG_INDEX, k) {
        assert(x =~= ix.skip(base.len() as int + 1));
        assert(k =~= tag_index_key(base, TAG_INDEX, k).skip(base.len() as int + 1));
    }
    assert(ix.take(base.len() as int) =~= base);
}

/// Operations under a prefix that holds no index key of the collection leave its index as it
/// was.
proof fn lemma_ops_keep_index(m: Map<Seq<u8>, Seq<u8>>, ops: Seq<WriteOp>, base: Seq<u8>, k: Seq<u8>, x: Seq<u8>)
    requires
        ops_under(ops, 0, tag_index_key(base, TAG_SUBVIEW, k)),
    ensures
        apply_ops(m, ops).contains_key(tag_index_key(base, TAG_INDEX, x)) == m.contains_key(tag_index_key(base, TAG_INDEX, x)),
    decreases ops.len(),
{
    let p = tag_index_key(base, TAG_SUBVIEW, k);
    let ix = tag_index_key(base, TAG_INDEX, x);
    lemma_index_key_facts(base, k, x);
    if ops.len() > 0 {
        let d = ops.drop_last();
        assert forall|i: int| 0 <= i < d.len() implies op_under(#[trigger] d[i], p) by {
            assert(d[i] == ops[i]);
        }
        lemma_ops_keep_index(m, d, base, k, x);
        assert(op_under(ops[ops.len() - 1], p));
        match ops.last() {
            WriteOp::Put { key, value } => {
                if key@ == ix {
                    assert(is_prefix(p, ix));
                }
            },
            WriteOp::Delete { key } => {
                if key@ == ix {
                    assert(is_prefix(p, ix));
                }
            },
            WriteOp::DeletePrefix { key_prefix } => {
                if is_prefix(key_prefix@, ix) {
                    assert(ix.take(p.len() as int) =~= ix.take(key_prefix@.len() as int).take(p.len() as int));
                    assert(is_prefix(p, ix));
                }
            },
        }
    }
}

/// A view that holds a collection of sub-views of type `W`, indexed by byte strings.
pub struct ByteCollectionView<W> {
    context: Vec<u8>,
    delete_storage_first: bool,
    updates: Vec<(Vec<u8>, Update<W>)>,
    stored_hash: Option<Vec<u8>>,
    hash: Option<Vec<u8>>,
}

/// The byte string held by an optional vector.
pub open spec fn opt_bytes(o: Option<Vec<u8>>) -> Option<Seq<u8>> {
    match o {
        Some(v) => Some(v@),
        None => None,
    }
}

impl<W: StoredView> ByteCollectionView<W> {
    /// The key prefix of the collection.
    pub closed spec fn base_key(&self) -> Seq<u8> {
        self.context@
    }

    /// Stored entries are to be ignored: the collection was cleared.
    pub closed spec fn deletes_storage_first(&self) -> bool {
        self.delete_storage_first
    }

    /// The pending changes by short key.
    pub closed spec fn pending(&self) -> Map<Seq<u8>, Update<W>> {
        updates_map(self.updates@)
    }

    /// The digest written to the store at the last flush (or found at load).
    pub closed spec fn stored_hash_of(&self) -> Option<Seq<u8>> {
        opt_bytes(self.stored_hash)
    }

    /// The cached digest of the current contents, if known.
    pub closed spec fn cached_hash_of(&self) -> Option<Seq<u8>> {
        opt_bytes(self.hash)
    }

    /// The pending changes have distinct keys, and none marks a removal while stored entries
    /// are ignored anyway.
    pub closed spec fn wf(&self) -> bool {
        &&& distinct_keys(self.updates@)
        &&& forall|i: int| 0 <= i < self.updates@.len() && #[trigger] self.updates@[i].1 is Value
            ==> self.updates@[i].1->Value_0.context_of() == tag_index_key(self.context@, TAG_SUBVIEW, self.updates@[i].0@)
                && self.updates@[i].1->Value_0.inv()
        &&& self.delete_storage_first ==> forall|i: int| 0 <= i < self.updates@.len() ==> #[trigger] self.updates@[i].1 is Value
    }

    /// Whether the entry `k` exists: a pending change decides, else the stored index unless
    /// the collection was cleared.
    pub open spec fn is_live(&self, k: Seq<u8>, store: Map<Seq<u8>, Seq<u8>>) -> bool {
        if self.pending().contains_key(k) {
            self.pending()[k] is Value
        } else {
            !self.deletes_storage_first() && store.contains_key(tag_index_key(self.base_key(), TAG_INDEX, k))
        }
    }

    /// Applying `ops` after `prior` to any store leaves in the index exactly the existing
    /// entries: those set by a pending change, and else those indexed before unless the
    /// collection was cleared.
    pub open spec fn persists_index(&self, prior: Seq<WriteOp>, ops: Seq<WriteOp>) -> bool {
        forall|m: Map<Seq<u8>, Seq<u8>>, x: Seq<u8>| #[trigger] index_after(m, ops, self.base_key(), x) == (
            if self.pending().contains_key(x) {
                self.pending()[x] is Value
            } else {
                !self.deletes_storage_first() && index_after(m, prior, self.base_key(), x)
            })
    }

    /// Applying `ops` after `prior` to a store whose digest record is the one the collection
    /// found (or to any store, once the collection was cleared) leaves the cached digest there.
    pub open spec fn persists_digest(&self, prior: Seq<WriteOp>, ops: Seq<WriteOp>) -> bool {
        forall|m: Map<Seq<u8>, Seq<u8>>|
            (self.deletes_storage_first() || #[trigger] hash_at(m, prior, self.base_key()) == self.stored_hash_of())
            ==> hash_at(m, ops, self.base_key()) == self.cached_hash_of()
    }

    /// The short keys of the existing entries.
    pub open spec fn live_keys(&self, store: Map<Seq<u8>, Seq<u8>>) -> Set<Seq<u8>> {
        Set::new(|k: Seq<u8>| self.is_live(k, store))
    }

    /// As freshly loaded from `store` under `context`: nothing pending, the stored digest read.
    pub open spec fn is_loaded_from(&self, context: Seq<u8>, store: Map<Seq<u8>, Seq<u8>>) -> bool {
        &&& self.wf()
        &&& self.base_key() == context
        &&& !self.deletes_storage_first()
        &&& self.pending() == Map::<Seq<u8>, Update<W>>::empty()
        &&& self.stored_hash_of() == (if store.contains_key(tag_key(context, TAG_HASH)) {
            Some(store[tag_key(context, TAG_HASH)])
        } else {
            None
        })
        &&& self.cached_hash_of() == self.stored_hash_of()
    }

    /// Loads the collection kept under `context`; only its digest is read.
    pub fn load(context: Vec<u8>, store: &MemoryStore) -> (r: ByteCollectionView<W>)
        requires
            store.wf(),
        ensures
            r.is_loaded_from(context@, store@),
    {
        let key = base_tag(&context, TAG_HASH);
        let hash = store.read_value(key.as_slice());
        let cached = match &hash {
            Some(h) => Some(h.clone()),
            None => None,
        };
        let r = ByteCollectionView {
            context,
            delete_storage_first: false,
            updates: Vec::new(),
            stored_hash: hash,
            hash: cached,
        };
        assert(r.pending() =~= Map::<Seq<u8>, Update<W>>::empty());
        r
    }

    /// The key prefix of the collection.
    pub fn context(&self) -> (r: &Vec<u8>)
        ensures
            r@ == self.base_key(),
    {
        &self.context
    }

    /// Discards the pending changes: the state is as after loading.
    pub fn rollback(&mut self)
        ensures
            final(self).wf(),
            final(self).base_key() == old(self).base_key(),
            !final(self).deletes_storage_first(),
            final(self).pending() == Map::<Seq<u8>, Update<W>>::empty(),
            final(self).stored_hash_of() == old(self).stored_hash_of(),
            final(self).cached_hash_of() == old(self).stored_hash_of(),
    {
        self.delete_storage_first = false;
        self.updates.clear();
        self.hash = match &self.stored_hash {
            Some(h) => Some(h.clone()),
            None => None,
        };
        assert(self.pending() =~= Map::<Seq<u8>, Update<W>>::empty());
    }

    /// Marks the collection to be emptied on the next flush; pending changes are discarded.
    pub fn clear(&mut self)
        ensures
            final(self).wf(),
            final(self).base_key() == old(self).base_key(),
            final(self).deletes_storage_first(),
            final(self).pending() == Map::<Seq<u8>, Update<W>>::empty(),
            final(self).stored_hash_of() == old(self).stored_hash_of(),
            final(self).cached_hash_of() is None,
    {
        self.delete_storage_first = true;
        self.updates.clear();
        self.hash = None;
        assert(self.pending() =~= Map::<Seq<u8>, Update<W>>::empty());
    }

    /// The position of the pending change of `k`, if any.
    fn find_update(&self, k: &[u8]) -> (r: Option<usize>)
        requires
            self.wf(),
        ensures
            r matches Some(i) ==> i < self.updates.len() && self.updates@[i as int].0@ == k@
                && self.pending().contains_key(k@) && self.pending()[k@] == self.updates@[i as int].1,
            r is None ==> !self.pending().contains_key(k@),
    {
        let mut i: usize = 0;
        while i < self.updates.len()
            invariant
                i <= self.updates.len(),
                distinct_keys(self.updates@),
                forall|j: int| 0 <= j < i ==> #[trigger] self.updates@[j].0@ != k@,
            decreases self.updates.len() - i,
        {
            if bytes_equal(self.updates[i].0.as_slice(), k) {
                proof { lemma_updates_map_at(self.updates@, i as int); }
                return Some(i);
            }
            i = i + 1;
        }
        None
    }

    /// Whether the entry `short_key` exists.
    pub fn contains_key(&self, short_key: &[u8], store: &MemoryStore) -> (r: bool)
        requires
            self.wf(),
            store.wf(),
        ensures
            r == self.is_live(short_key@, store@),
    {
        match self.find_update(short_key) {
            Some(i) => match &self.updates[i].1 {
                Update::Value(_) => true,
                Update::Removed => false,
            },
            None => {
                if self.delete_storage_first {
                    false
                } else {
                    let key = base_tag_index(&self.context, TAG_INDEX, short_key);
                    store.contains_key(key.as_slice())
                }
            },
        }
    }

    /// The short keys of the existing entries, in lexicographic order.
    pub fn keys(&self, store: &MemoryStore) -> (r: Vec<Vec<u8>>)
        requires
            self.wf(),
            store.wf(),
        ensures
            lex_sorted(byte_seqs(r@)),
            byte_seqs(r@).to_set() == self.live_keys(store@),
    {
        let mut r: Vec<Vec<u8>> = if self.delete_storage_first {
            Vec::new()
        } else {
            let prefix = base_tag(&self.context, TAG_INDEX);
            store.find_keys_by_prefix(prefix.as_slice())
        };
        let ghost base = |k: Seq<u8>| !self.delete_storage_first && store@.contains_key(tag_index_key(self.context@, TAG_INDEX, k));
        proof {
            assert forall|k: Seq<u8>| #[trigger] byte_seqs(r@).to_set().contains(k) == base(k) by {
                assert(tag_key(self.context@, TAG_INDEX) + k == tag_index_key(self.context@, TAG_INDEX, k));
                if self.delete_storage_first {
                    assert(byte_seqs(r@) =~= Seq::<Seq<u8>>::empty());
                }
            }
        }
        let mut i: usize = 0;
        while i < self.updates.len()
            invariant
                i <= self.updates.len(),
                self.wf(),
                lex_sorted(byte_seqs(r@)),
                forall|k: Seq<u8>| #[trigger] byte_seqs(r@).to_set().contains(k) == (
                    (exists|j: int| 0 <= j < i && self.updates@[j].0@ == k && self.updates@[j].1 is Value)
                    || (base(k) && forall|j: int| 0 <= j < i ==> self.updates@[j].0@ != k)),
            decreases self.updates.len() - i,
        {
            let ghost before = byte_seqs(r@).to_set();
            let key = &self.updates[i].0;
            match &self.updates[i].1 {
                Update::Value(_) => insert_sorted(&mut r, key.clone()),
                Update::Removed => remove_sorted(&mut r, key.as_slice()),
            }
            proof {
                assert forall|k: Seq<u8>| #[trigger] byte_seqs(r@).to_set().contains(k) == (
                    (exists|j: int| 0 <= j < i + 1 && self.updates@[j].0@ == k && self.updates@[j].1 is Value)
                    || (base(k) && forall|j: int| 0 <= j < i + 1 ==> self.updates@[j].0@ != k)) by {
                    if k == key@ {
                        assert forall|j: int| 0 <= j < i implies self.updates@[j].0@ != k by {
                            assert(self.updates@[j].0@ != self.updates@[i as int].0@);
                        }
                    } else {
                        if exists|j: int| 0 <= j < i + 1 && self.updates@[j].0@ == k && self.updates@[j].1 is Value {
                            let j = choose|j: int| 0 <= j < i + 1 && self.updates@[j].0@ == k && self.updates@[j].1 is Value;
                            assert(j < i);
                        }
                    }
                }
            }
            i = i + 1;
        }
        proof {
            assert forall|k: Seq<u8>| #[trigger] byte_seqs(r@).to_set().contains(k) == self.live_keys(store@).contains(k) by {
                if self.pending().contains_key(k) {
                    let j = choose|j: int| 0 <= j < self.updates@.len() && #[trigger] self.updates@[j].0@ == k;
                    lemma_updates_map_at(self.updates@, j);
                    if exists|m: int| 0 <= m < self.updates@.len() && self.updates@[m].0@ == k && self.updates@[m].1 is Value {
                        let m = choose|m: int| 0 <= m < self.updates@.len() && self.updates@[m].0@ == k && self.updates@[m].1 is Value;
                        lemma_updates_map_at(self.updates@, m);
                    }
                } else {
                    if exists|m: int| 0 <= m < self.updates@.len() && self.updates@[m].0@ == k && self.updates@[m].1 is Value {
                        let m = choose|m: int| 0 <= m < self.updates@.len() && self.updates@[m].0@ == k && self.updates@[m].1 is Value;
                        lemma_updates_map_at(self.updates@, m);
                    }
                    assert forall|j: int| 0 <= j < self.updates@.len() implies self.updates@[j].0@ != k by {
                        if self.updates@[j].0@ == k {
                            lemma_updates_map_at(self.updates@, j);
                        }
                    }
                }
            }
            assert(byte_seqs(r@).to_set() =~= self.live_keys(store@));
        }
        r
    }

    /// The sub-view of the entry `short_key`, created if absent, for modification. A new or
    /// previously removed entry starts from the loaded sub-view, cleared where the stored one is
    /// to be ignored.
    pub fn load_entry_mut(&mut self, short_key: Vec<u8>, store: &MemoryStore) -> (r: &mut W)
        requires
            old(self).wf(),
            store.wf(),
        ensures
            (*final(r)).context_of() == (*r).context_of() && (*final(r)).inv() ==> final(self).wf(),
            (*r).inv(),
            final(self).base_key() == old(self).base_key(),
            final(self).deletes_storage_first() == old(self).deletes_storage_first(),
            final(self).stored_hash_of() == old(self).stored_hash_of(),
            final(self).cached_hash_of() is None,
            final(self).pending() == old(self).pending().insert(short_key@, Update::Value(*final(r))),
            (*r).context_of() == tag_index_key(old(self).base_key(), TAG_SUBVIEW, short_key@),
            old(self).pending().contains_key(short_key@) && old(self).pending()[short_key@] is Value
                ==> old(self).pending()[short_key@] == Update::Value(*r),
            old(self).pending().contains_key(short_key@) && old(self).pending()[short_key@] is Removed
                ==> (*r).is_cleared(),
            !old(self).pending().contains_key(short_key@) && old(self).deletes_storage_first()
                ==> (*r).is_cleared(),
            !old(self).pending().contains_key(short_key@) && !old(self).deletes_storage_first()
                ==> (*r).pending_free() && (*r).hash_of(store@) == W::loaded_hash(
                    tag_index_key(old(self).base_key(), TAG_SUBVIEW, short_key@), store@),
    {
        self.hash = None;
        let ghost old_updates = self.updates@;
        let i: usize = match self.find_update(short_key.as_slice()) {
            Some(i) => {
                let removed = match &self.updates[i].1 {
                    Update::Removed => true,
                    Update::Value(_) => false,
                };
                if removed {
                    let ctx = base_tag_index(&self.context, TAG_SUBVIEW, short_key.as_slice());
                    let mut view = W::load(ctx, store);
                    view.clear();
                    self.updates.set(i, (short_key, Update::Value(view)));
                }
                i
            },
            None => {
                let ctx = base_tag_index(&self.context, TAG_SUBVIEW, short_key.as_slice());
                let mut view = W::load(ctx, store);
                if self.delete_storage_first {
                    view.clear();
                }
                self.updates.push((short_key, Update::Value(view)));
                self.updates.len() - 1
            },
        };
        proof {
            let s = self.updates@;
            assert forall|a: int, b: int| 0 <= a < b < s.len() implies #[trigger] s[a].0@ != #[trigger] s[b].0@ by {
                if b == old_updates.len() {
                    assert(s[a] == old_updates[a]);
                    lemma_updates_map_at(old_updates, a);
                } else {
                    assert(s[a].0@ == old_updates[a].0@ && s[b].0@ == old_updates[b].0@);
                }
            }
            assert forall|x: W| #[trigger] updates_map(s.update(i as int, (s[i as int].0, Update::Value(x))))
                == old(self).pending().insert(short_key@, Update::Value(x)) by {
                let s2 = s.update(i as int, (s[i as int].0, Update::Value(x)));
                assert forall|a: int, b: int| 0 <= a < b < s2.len() implies #[trigger] s2[a].0@ != #[trigger] s2[b].0@ by {
                    assert(s2[a].0@ == s[a].0@ && s2[b].0@ == s[b].0@);
                }
                lemma_updates_map_replace(old_updates, s2, i as int);
            }
        }
        match &mut self.updates[i].1 {
            Update::Value(v) => v,
            Update::Removed => unreached(),
        }
    }

    /// Appends to `batch` the operations that persist the pending changes, then holds nothing
    /// pending. Every operation stays under the collection's key prefix.
    pub fn flush(&mut self, batch: &mut Batch)
        requires
            old(self).wf(),
        ensures
            final(self).wf(),
            final(self).base_key() == old(self).base_key(),
            !final(self).deletes_storage_first(),
            final(self).pending() == Map::<Seq<u8>, Update<W>>::empty(),
            final(self).stored_hash_of() == old(self).cached_hash_of(),
            final(self).cached_hash_of() == old(self).cached_hash_of(),
            final(batch).operations@.len() >= old(batch).operations@.len(),
            final(batch).operations@.take(old(batch).operations@.len() as int) == old(batch).operations@,
            ops_under(final(batch).operations@, old(batch).operations@.len() as int, old(self).base_key()),
            old(self).pending() == Map::<Seq<u8>, Update<W>>::empty() && !old(self).deletes_storage_first()
                && old(self).cached_hash_of() == old(self).stored_hash_of()
                ==> final(batch).operations@ == old(batch).operations@,
            old(self).persists_index(old(batch).operations@, final(batch).operations@),
            old(self).persists_digest(old(batch).operations@, final(batch).operations@),
            forall|k: Seq<u8>| #[trigger] old(self).pending().contains_key(k)
                ==> entry_flushed(final(batch).operations@, old(self).base_key(), k, old(self).pending()[k]),
            old(self).deletes_storage_first() ==> (final(batch).operations@[old(batch).operations@.len() as int]
                matches WriteOp::DeletePrefix { key_prefix } && key_prefix@ == old(self).base_key()),
            old(self).deletes_storage_first() && old(self).pending() == Map::<Seq<u8>, Update<W>>::empty()
                && old(self).cached_hash_of() is None
                ==> final(batch).operations@.len() == old(batch).operations@.len() + 1,
            final(self).stored_hash_of() == final(self).cached_hash_of(),
    {
        let ghost start = batch.operations@.len() as int;
        let ghost orig = batch.operations@;
        let ghost base = self.context@;
        proof { lemma_prefix_refl(base); }
        let ghost orig_updates = self.updates@;
        if self.delete_storage_first {
            batch.delete_key_prefix(self.context.clone());
            assert(batch.operations@.take(start) =~= orig);
            proof {
                assert forall|m: Map<Seq<u8>, Seq<u8>>, x: Seq<u8>| !#[trigger] index_after(m, batch.operations@, base, x) by {
                    lemma_index_key_facts(base, x, x);
                    assert(batch.operations@.drop_last() =~= orig);
                }
                assert forall|m: Map<Seq<u8>, Seq<u8>>| #[trigger] hash_at(m, batch.operations@, base) == None::<Seq<u8>> by {
                    assert(batch.operations@.drop_last() =~= orig);
                    assert(is_prefix(base, tag_key(base, TAG_HASH))) by {
                        assert(tag_key(base, TAG_HASH).take(base.len() as int) =~= base);
                    }
                    assert(apply_ops(m, batch.operations@) == apply_op(apply_ops(m, orig), batch.operations@.last()));
                }
            }
        }
        let ghost had_updates = self.updates@.len() > 0;
        while self.updates.len() > 0
            invariant
                self.wf(),
                self.context@ == base,
                self.hash == old(self).hash,
                self.stored_hash == old(self).stored_hash,
                self.delete_storage_first == old(self).delete_storage_first,
                start == orig.len(),
                batch.operations@.len() >= start,
                batch.operations@.take(start) == orig,
                ops_under(batch.operations@, start, base),
                !had_updates && !old(self).delete_storage_first ==> batch.operations@ == orig,
                had_updates || self.updates@.len() == 0,
                orig_updates == old(self).updates@,
                self.updates@ == orig_updates.take(self.updates@.len() as int),
                self.updates@.len() <= orig_updates.len(),
                distinct_keys(orig_updates),
                forall|m: Map<Seq<u8>, Seq<u8>>, x: Seq<u8>| #[trigger] index_after(m, batch.operations@, base, x) == (
                    if exists|j: int| self.updates@.len() <= j < orig_updates.len() && orig_updates[j].0@ == x {
                        updates_map(orig_updates)[x] is Value
                    } else {
                        !old(self).delete_storage_first && index_after(m, orig, base, x)
                    }),
                forall|m: Map<Seq<u8>, Seq<u8>>| #[trigger] hash_at(m, batch.operations@, base) == (
                    if old(self).delete_storage_first { None::<Seq<u8>> } else { hash_at(m, orig, base) }),
                forall|j: int| self.updates@.len() <= j < orig_updates.len()
                    ==> entry_flushed(batch.operations@, base, orig_updates[j].0@, #[trigger] orig_updates[j].1),
                old(self).delete_storage_first ==> (batch.operations@[start] matches WriteOp::DeletePrefix { key_prefix }
                    && key_prefix@ == base),
                old(self).delete_storage_first && !had_updates ==> batch.operations@.len() == start + 1,
                old(self).delete_storage_first ==> batch.operations@.len() > start,
            decreases self.updates.len(),
        {
            let ghost before = batch.operations@;
            let ghost prev = self.updates@;
            let last = self.updates.pop();
            proof {
                assert(self.updates@ =~= prev.drop_last());
                assert(self.updates@ =~= orig_updates.take(self.updates@.len() as int));
                assert forall|a: int, b: int| 0 <= a < b < self.updates@.len() implies #[trigger] self.updates@[a].0@ != #[trigger] self.updates@[b].0@ by {
                    assert(self.updates@[a] == prev[a] && self.updates@[b] == prev[b]);
                }
                assert forall|j: int| 0 <= j < self.updates@.len() && #[trigger] self.updates@[j].1 is Value
                    implies self.updates@[j].1->Value_0.context_of() == tag_index_key(self.context@, TAG_SUBVIEW, self.updates@[j].0@)
                        && self.updates@[j].1->Value_0.inv() by {
                    assert(self.updates@[j] == prev[j]);
                }
            }
            match last {
                Some((index, update)) => {
                    proof { assert(prev[prev.len() - 1] == (index, update)); }
                    match update {
                        Update::Value(mut view) => {
                            proof {
                                lemma_prefix_tag(base, TAG_SUBVIEW, index@);
                                assert(prev[prev.len() - 1].1 is Value);
                                assert(view.context_of() == tag_index_key(base, TAG_SUBVIEW, index@));
                            }
                            view.flush(batch);
                            let ghost mid = batch.operations@;
                            proof {
                                assert forall|i: int| before.len() <= i < batch.operations@.len() implies op_under(#[trigger] batch.operations@[i], base) by {
                                    lemma_op_under_trans(batch.operations@[i], base, tag_index_key(base, TAG_SUBVIEW, index@));
                                }
                            }
                            let key = base_tag_index(&self.context, TAG_INDEX, index.as_slice());
                            batch.put_key_value_bytes(key, Vec::new());
                            proof {
                                lemma_prefix_tag(base, TAG_INDEX, index@);
                                assert(batch.operations@.take(mid.len() as int) =~= mid);
                                assert(mid.take(before.len() as int) == before);
                                assert(batch.operations@.take(before.len() as int) =~= before);
                                assert forall|i: int| before.len() <= i < batch.operations@.len() implies op_under(#[trigger] batch.operations@[i], base) by {
                                    if i < mid.len() {
                                        assert(batch.operations@[i] == mid[i]);
                                    }
                                }
                                let n1 = (prev.len() - 1) as int;
                                let seg = mid.skip(before.len() as int);
                                assert(mid =~= before + seg);
                                let sp = tag_index_key(base, TAG_SUBVIEW, index@);
                                assert forall|i: int| 0 <= i < seg.len() implies op_under(#[trigger] seg[i], sp) by {
                                    assert(seg[i] == mid[before.len() + i]);
                                }
                                assert(batch.operations@.drop_last() =~= mid);
                                lemma_updates_map_at(orig_updates, n1);
                                assert(orig_updates[n1] == prev[n1]);
                                assert forall|m: Map<Seq<u8>, Seq<u8>>, x: Seq<u8>| #[trigger] index_after(m, batch.operations@, base, x) == (
                                    if exists|j: int| n1 <= j < orig_updates.len() && orig_updates[j].0@ == x {
                                        updates_map(orig_updates)[x] is Value
                                    } else {
                                        !old(self).delete_storage_first && index_after(m, orig, base, x)
                                    }) by {
                                    lemma_apply_ops_append(m, before, seg);
                                    lemma_ops_keep_index(apply_ops(m, before), seg, base, index@, x);
                                    lemma_index_key_facts(base, index@, x);
                                    assert(index_after(m, before, base, x) == (
                                        if exists|j: int| n1 + 1 <= j < orig_updates.len() && orig_updates[j].0@ == x {
                                            updates_map(orig_updates)[x] is Value
                                        } else {
                                            !old(self).delete_storage_first && index_after(m, orig, base, x)
                                        }));
                                    if x != index@ {
                                        if exists|j: int| n1 <= j < orig_updates.len() && orig_updates[j].0@ == x {
                                            let j = choose|j: int| n1 <= j < orig_updates.len() && orig_updates[j].0@ == x;
                                            assert(j != n1);
                                            assert(n1 + 1 <= j);
                                        }
                                    } else {
                                        assert(orig_updates[n1].0@ == x);
                                    }
                                }
                                assert forall|m: Map<Seq<u8>, Seq<u8>>| #[trigger] hash_at(m, batch.operations@, base) == hash_at(m, before, base) by {
                                    lemma_hash_after_subview(m, before, seg, base, index@);
                                    lemma_index_key_facts(base, index@, index@);
                                    lemma_hash_untouched(m, mid, batch.operations@, base);
                                }
                                assert(index_put_at(batch.operations@, mid.len() as int, base, index@));
                                assert(entry_flushed(batch.operations@, base, orig_updates[n1].0@, orig_updates[n1].1));
                            }
                        },
                        Update::Removed => {
                            let key_index = base_tag_index(&self.context, TAG_INDEX, index.as_slice());
                            let key_subview = base_tag_index(&self.context, TAG_SUBVIEW, index.as_slice());
                            batch.delete_key(key_index);
                            batch.delete_key_prefix(key_subview);
                            proof {
                                assert(batch.operations@.take(before.len() as int) =~= before);
                                lemma_prefix_tag(base, TAG_INDEX, index@);
                                lemma_prefix_tag(base, TAG_SUBVIEW, index@);
                                assert(op_under(batch.operations@[before.len() as int], base));
                                assert(op_under(batch.operations@[before.len() as int + 1], base));
                                let n1 = (prev.len() - 1) as int;
                                lemma_updates_map_at(orig_updates, n1);
                                assert(orig_updates[n1] == prev[n1]);
                                let ops = batch.operations@;
                                assert(ops.drop_last().drop_last() =~= before);
                                assert forall|m: Map<Seq<u8>, Seq<u8>>, x: Seq<u8>| #[trigger] index_after(m, batch.operations@, base, x) == (
                                    if exists|j: int| n1 <= j < orig_updates.len() && orig_updates[j].0@ == x {
                                        updates_map(orig_updates)[x] is Value
                                    } else {
                                        !old(self).delete_storage_first && index_after(m, orig, base, x)
                                    }) by {
                                    lemma_index_key_facts(base, index@, x);
                                    let d = ops.drop_last();
                                    assert(apply_ops(m, ops) == apply_op(apply_ops(m, d), ops.last()));
                                    assert(apply_ops(m, d) == apply_op(apply_ops(m, before), d.last()));
                                    let ix = tag_index_key(base, TAG_INDEX, x);
                                    match ops.last() {
                                        WriteOp::DeletePrefix { key_prefix } => {
                                            assert(key_prefix@ == tag_index_key(base, TAG_SUBVIEW, index@));
                                            assert(apply_ops(m, ops).contains_key(ix) == apply_ops(m, d).contains_key(ix));
                                        },
                                        _ => { assert(false); },
                                    }
                                    match d.last() {
                                        WriteOp::Delete { key } => {
                                            assert(key@ == tag_index_key(base, TAG_INDEX, index@));
                                        },
                                        _ => { assert(false); },
                                    }
                                    assert(index_after(m, before, base, x) == (
                                        if exists|j: int| n1 + 1 <= j < orig_updates.len() && orig_updates[j].0@ == x {
                                            updates_map(orig_updates)[x] is Value
                                        } else {
                                            !old(self).delete_storage_first && index_after(m, orig, base, x)
                                        }));
                                    if x != index@ {
                                        if exists|j: int| n1 <= j < orig_updates.len() && orig_updates[j].0@ == x {
                                            let j = choose|j: int| n1 <= j < orig_updates.len() && orig_updates[j].0@ == x;
                                            assert(j != n1);
                                            assert(n1 + 1 <= j);
                                        }
                                    } else {
                                        assert(orig_updates[n1].0@ == x);
                                    }
                                }
                                assert forall|m: Map<Seq<u8>, Seq<u8>>| #[trigger] hash_at(m, batch.operations@, base) == hash_at(m, before, base) by {
                                    lemma_index_key_facts(base, index@, index@);
                                    lemma_hash_untouched(m, ops.drop_last(), ops, base);
                                    lemma_hash_untouched(m, before, ops.drop_last(), base);
                                }
                                assert(removal_at(batch.operations@, before.len() as int, base, index@));
                                assert(entry_flushed(batch.operations@, base, orig_updates[n1].0@, orig_updates[n1].1));
                            }
                        },
                    }
                },
                None => {
                    assert(false);
                },
            }
            proof {
                assert(batch.operations@.take(before.len() as int) == before);
                assert(batch.operations@.len() >= before.len());
                assert forall|j: int| self.updates@.len() <= j < orig_updates.len()
                    implies entry_flushed(batch.operations@, base, orig_updates[j].0@, #[trigger] orig_updates[j].1) by {
                    if j > self.updates@.len() {
                        lemma_entry_flushed_kept(before, batch.operations@, base, orig_updates[j].0@, orig_updates[j].1);
                    }
                }
                if old(self).delete_storage_first {
                    assert(batch.operations@.take(before.len() as int)[start] == batch.operations@[start]);
                }
                assert forall|i: int| 0 <= i < before.len() implies batch.operations@[i] == before[i] by {
                    assert(batch.operations@.take(before.len() as int)[i] == before[i]);
                }
                assert(before.len() >= start);
                assert(before.take(start) == orig);
                assert(batch.operations@.take(start) =~= batch.operations@.take(before.len() as int).take(start));
                assert forall|i: int| start <= i < batch.operations@.len() implies op_under(#[trigger] batch.operations@[i], base) by {
                    if i < before.len() {
                        assert(batch.operations@.take(before.len() as int)[i] == before[i]);
                    }
                }
            }
        }
        let ghost after_loop = batch.operations@;
        proof {
            assert forall|m: Map<Seq<u8>, Seq<u8>>, x: Seq<u8>| #[trigger] index_after(m, after_loop, base, x) == (
                if old(self).pending().contains_key(x) {
                    old(self).pending()[x] is Value
                } else {
                    !old(self).deletes_storage_first() && index_after(m, orig, base, x)
                }) by {
                assert(self.updates@.len() == 0);
                if old(self).pending().contains_key(x) {
                    let j = choose|j: int| 0 <= j < orig_updates.len() && #[trigger] orig_updates[j].0@ == x;
                    assert(orig_updates[j].0@ == x);
                } else {
                    if exists|j: int| 0 <= j < orig_updates.len() && orig_updates[j].0@ == x {
                        let j = choose|j: int| 0 <= j < orig_updates.len() && orig_updates[j].0@ == x;
                        assert(updates_map(orig_updates).contains_key(x));
                    }
                }
            }
        }
        let same = if self.delete_storage_first {
            self.hash.is_none()
        } else {
            match (&self.stored_hash, &self.hash) {
                (None, None) => true,
                (Some(a), Some(b)) => bytes_equal(a.as_slice(), b.as_slice()),
                _ => false,
            }
        };
        if !same {
            let ghost before = batch.operations@;
            let key = base_tag(&self.context, TAG_HASH);
            match &self.hash {
                None => batch.delete_key(key),
                Some(h) => batch.put_key_value_bytes(key, h.clone()),
            }
            proof {
                assert(is_prefix(base, tag_key(base, TAG_HASH))) by {
                    assert(tag_key(base, TAG_HASH).take(base.len() as int) =~= base);
                }
                assert(batch.operations@.take(start) =~= before.take(start));
                assert(batch.operations@.drop_last() =~= before);
                assert forall|m: Map<Seq<u8>, Seq<u8>>, x: Seq<u8>| #[trigger] index_after(m, batch.operations@, base, x)
                    == index_after(m, before, base, x) by {
                    lemma_index_key_facts(base, x, x);
                    assert(apply_ops(m, batch.operations@) == apply_op(apply_ops(m, before), batch.operations@.last()));
                }
                assert forall|m: Map<Seq<u8>, Seq<u8>>| #[trigger] hash_at(m, batch.operations@, base) == old(self).cached_hash_of() by {
                    assert(apply_ops(m, batch.operations@) == apply_op(apply_ops(m, before), batch.operations@.last()));
                }
                assert forall|k: Seq<u8>| #[trigger] old(self).pending().contains_key(k)
                    implies entry_flushed(batch.operations@, base, k, old(self).pending()[k]) by {
                    let j = choose|j: int| 0 <= j < orig_updates.len() && #[trigger] orig_updates[j].0@ == k;
                    lemma_updates_map_at(orig_updates, j);
                    lemma_entry_flushed_kept(before, batch.operations@, base, k, old(self).pending()[k]);
                }
                if old(self).delete_storage_first {
                    assert(batch.operations@.take(before.len() as int)[start] == batch.operations@[start]);
                }
            }
        } else {
            proof {
                assert forall|k: Seq<u8>| #[trigger] old(self).pending().contains_key(k)
                    implies entry_flushed(batch.operations@, base, k, old(self).pending()[k]) by {
                    let j = choose|j: int| 0 <= j < orig_updates.len() && #[trigger] orig_updates[j].0@ == k;
                    lemma_updates_map_at(orig_updates, j);
                }
                if old(self).delete_storage_first && old(self).pending() == Map::<Seq<u8>, Update<W>>::empty() {
                    if orig_updates.len() > 0 {
                        lemma_updates_map_at(orig_updates, 0);
                    }
                }
            }
        }
        self.stored_hash = match &self.hash {
            Some(h) => Some(h.clone()),
            None => None,
        };
        self.delete_storage_first = false;
        assert(self.pending() =~= Map::<Seq<u8>, Update<W>>::empty());
        proof {
            if old(self).pending() == Map::<Seq<u8>, Update<W>>::empty() {
                if old(self).updates@.len() > 0 {
                    lemma_updates_map_at(old(self).updates@, 0);
                }
            }
        }
    }

    /// The digest of the entry `k`: that of its pending sub-view, else that of the sub-view as
    /// stored.
    pub open spec fn entry_hash(&self, k: Seq<u8>, store: Map<Seq<u8>, Seq<u8>>) -> Seq<u8> {
        if self.pending().contains_key(k) && self.pending()[k] is Value {
            self.pending()[k]->Value_0.hash_of(store)
        } else {
            W::loaded_hash(tag_index_key(self.base_key(), TAG_SUBVIEW, k), store)
        }
    }

    /// The digest of the current contents: over the existing keys in lexicographic order, each
    /// with the digest of its entry.
    pub open spec fn contents_hash(&self, store: Map<Seq<u8>, Seq<u8>>) -> Seq<u8> {
        sha3_256_of(hash_preimage(sorted_keys(self.live_keys(store)), |k: Seq<u8>| self.entry_hash(k, store)))
    }

    /// Computes the digest of the current contents.
    pub fn compute_hash(&self, store: &MemoryStore) -> (r: Vec<u8>)
        requires
            self.wf(),
            store.wf(),
        ensures
            r@ == self.contents_hash(store@),
            r@.len() == 32,
    {
        let keys = self.keys(store);
        let ghost q = byte_seqs(keys@);
        let ghost f = |k: Seq<u8>| self.entry_hash(k, store@);
        proof {
            let c = sorted_keys(self.live_keys(store@));
            assert(lex_sorted(c) && c.to_set() == self.live_keys(store@));
            lemma_sorted_unique(c, q);
        }
        let mut data: Vec<u8> = Vec::new();
        push_le_u64(&mut data, keys.len() as u64);
        let mut i: usize = 0;
        assert(q.take(0) =~= Seq::<Seq<u8>>::empty());
        while i < keys.len()
            invariant
                i <= keys.len(),
                self.wf(),
                store.wf(),
                f == (|k: Seq<u8>| self.entry_hash(k, store@)),
                q == byte_seqs(keys@),
                q.to_set() == self.live_keys(store@),
                data@ == le_bytes(keys.len() as nat, 8) + hash_records(q.take(i as int), f),
            decreases keys.len() - i,
        {
            let key = &keys[i];
            let ghost prev = data@;
            assert(q[i as int] == key@);
            assert(q.to_set().contains(key@));
            push_le_u64(&mut data, key.len() as u64);
            push_bytes(&mut data, key.as_slice());
            let h = match self.find_update(key.as_slice()) {
                Some(j) => match &self.updates[j].1 {
                    Update::Value(v) => v.hash(store),
                    Update::Removed => unreached(),
                },
                None => {
                    let ctx = base_tag_index(&self.context, TAG_SUBVIEW, key.as_slice());
                    let view = W::load(ctx, store);
                    view.hash(store)
                },
            };
            push_bytes(&mut data, h.as_slice());
            proof {
                assert(h@ == self.entry_hash(key@, store@));
                assert(h@ == f(key@));
                assert(q.take(i + 1).drop_last() =~= q.take(i as int));
                assert(q.take(i + 1).last() == key@);
                assert(hash_records(q.take(i + 1), f) == hash_records(q.take(i as int), f) + le_bytes(key@.len(), 8) + key@ + f(key@));
                assert(data@ =~= le_bytes(keys.len() as nat, 8) + hash_records(q.take(i + 1), f));
            }
            i = i + 1;
        }
        assert(q.take(keys.len() as int) =~= q);
        sha3_256(&data)
    }

    /// The digest of the current contents, taken from the cache where it is known, and cached
    /// otherwise.
    pub fn hash_mut(&mut self, store: &MemoryStore) -> (r: Vec<u8>)
        requires
            old(self).wf(),
            store.wf(),
        ensures
            final(self).wf(),
            final(self).base_key() == old(self).base_key(),
            final(self).deletes_storage_first() == old(self).deletes_storage_first(),
            final(self).pending() == old(self).pending(),
            final(self).stored_hash_of() == old(self).stored_hash_of(),
            old(self).cached_hash_of() matches Some(h) ==> r@ == h,
            old(self).cached_hash_of() is None ==> r@ == old(self).contents_hash(store@),
            final(self).cached_hash_of() == Some(r@),
    {
        match &self.hash {
            Some(h) => h.clone(),
            None => {
                let h = self.compute_hash(store);
                self.hash = Some(h.clone());
                h
            },
        }
    }

    /// The digest of the current contents: the cached one where it is known.
    pub fn hash(&self, store: &MemoryStore) -> (r: Vec<u8>)
        requires
            self.wf(),
            store.wf(),
        ensures
            self.cached_hash_of() matches Some(h) ==> r@ == h,
            self.cached_hash_of() is None ==> r@ == self.contents_hash(store@),
    {
        match &self.hash {
            Some(h) => h.clone(),
            None => self.compute_hash(store),
        }
    }

    /// The sub-view of the entry `short_key`, created if absent, for reading.
    pub fn load_entry_or_insert(&mut self, short_key: Vec<u8>, store: &MemoryStore) -> (r: &W)
        requires
            old(self).wf(),
            store.wf(),
        ensures
            final(self).wf(),
            final(self).base_key() == old(self).base_key(),
            final(self).pending().contains_key(short_key@),
            final(self).pending()[short_key@] == Update::Value(*r),
            forall|k: Seq<u8>| k != short_key@ ==> #[trigger] final(self).pending().contains_key(k) == old(self).pending().contains_key(k),
            forall|k: Seq<u8>, st: Map<Seq<u8>, Seq<u8>>| #[trigger] final(self).is_live(k, st) == (k == short_key@ || old(self).is_live(k, st)),
    {
        let r = self.load_entry_mut(short_key, store);
        &*r
    }

    /// The sub-view of the entry `short_key` for reading, or `None` where the entry does not
    /// exist. A stored entry is loaded into the pending changes.
    pub fn try_load_entry(&mut self, short_key: Vec<u8>, store: &MemoryStore) -> (r: Option<&W>)
        requires
            old(self).wf(),
            store.wf(),
        ensures
            final(self).wf(),
            final(self).base_key() == old(self).base_key(),
            final(self).deletes_storage_first() == old(self).deletes_storage_first(),
            final(self).stored_hash_of() == old(self).stored_hash_of(),
            final(self).cached_hash_of() == old(self).cached_hash_of(),
            r is Some <==> old(self).is_live(short_key@, store@),
            r matches Some(v) ==> final(self).pending()[short_key@] == Update::Value(*v),
            old(self).pending().contains_key(short_key@) || r is None ==> final(self).pending() == old(self).pending(),
            !old(self).pending().contains_key(short_key@) && r is Some ==> ({
                let v = r->Some_0;
                &&& final(self).pending() == old(self).pending().insert(short_key@, Update::Value(*v))
                &&& (*v).pending_free()
                &&& (*v).context_of() == tag_index_key(old(self).base_key(), TAG_SUBVIEW, short_key@)
                &&& (*v).hash_of(store@) == W::loaded_hash(tag_index_key(old(self).base_key(), TAG_SUBVIEW, short_key@), store@)
            }),
            forall|k: Seq<u8>| #[trigger] final(self).is_live(k, store@) == old(self).is_live(k, store@),
            final(self).contents_hash(store@) == old(self).contents_hash(store@),
    {
        match self.find_update(short_key.as_slice()) {
            Some(i) => {
                match &self.updates[i].1 {
                    Update::Value(v) => Some(v),
                    Update::Removed => None,
                }
            },
            None => {
                if self.delete_storage_first {
                    return None;
                }
                let key = base_tag_index(&self.context, TAG_INDEX, short_key.as_slice());
                if !store.contains_key(key.as_slice()) {
                    return None;
                }
                let ctx = base_tag_index(&self.context, TAG_SUBVIEW, short_key.as_slice());
                let view = W::load(ctx, store);
                let ghost old_updates = self.updates@;
                let ghost k = short_key@;
                self.updates.push((short_key, Update::Value(view)));
                let n = self.updates.len() - 1;
                proof {
                    let s = self.updates@;
                    assert forall|a: int, b: int| 0 <= a < b < s.len() implies #[trigger] s[a].0@ != #[trigger] s[b].0@ by {
                        if b == old_updates.len() {
                            assert(s[a] == old_updates[a]);
                            lemma_updates_map_at(old_updates, a);
                        } else {
                            assert(s[a] == old_updates[a] && s[b] == old_updates[b]);
                        }
                    }
                    assert forall|j: int| 0 <= j < s.len() && #[trigger] s[j].1 is Value
                        implies s[j].1->Value_0.context_of() == tag_index_key(self.context@, TAG_SUBVIEW, s[j].0@)
                            && s[j].1->Value_0.inv() by {
                        if j < old_updates.len() {
                            assert(s[j] == old_updates[j]);
                        }
                    }
                    lemma_updates_map_replace(old_updates, s, n as int);
                    assert(self.pending() == old(self).pending().insert(k, s[n as int].1));
                    let st = store@;
                    assert forall|x: Seq<u8>| #[trigger] self.is_live(x, st) == old(self).is_live(x, st) by {}
                    assert(self.live_keys(st) =~= old(self).live_keys(st));
                    let f1 = |x: Seq<u8>| self.entry_hash(x, st);
                    let f2 = |x: Seq<u8>| old(self).entry_hash(x, st);
                    assert(f1 =~= f2);
                }
                match &self.updates[n].1 {
                    Update::Value(v) => Some(v),
                    Update::Removed => unreached(),
                }
            },
        }
    }

    /// Resets the entry `short_key` to an emptied sub-view, creating it if absent.
    pub fn reset_entry_to_default(&mut self, short_key: Vec<u8>, store: &MemoryStore)
        requires
            old(self).wf(),
            store.wf(),
        ensures
            final(self).wf(),
            final(self).base_key() == old(self).base_key(),
            final(self).pending().contains_key(short_key@),
            final(self).pending()[short_key@] is Value,
            final(self).pending()[short_key@]->Value_0.is_cleared(),
            final(self).cached_hash_of() is None,
            forall|k: Seq<u8>, st: Map<Seq<u8>, Seq<u8>>| #[trigger] final(self).is_live(k, st) == (k == short_key@ || old(self).is_live(k, st)),
    {
        let view = self.load_entry_mut(short_key, store);
        view.clear();
    }

    /// Visits the existing keys in lexicographic order while `f` accepts them, and returns the
    /// keys it accepted: a prefix of `keys()`, followed (where it is shorter) by a key that `f`
    /// refused.
    pub fn for_each_key_while<F: Fn(&Vec<u8>) -> bool>(&self, store: &MemoryStore, f: F) -> (r: Vec<Vec<u8>>)
        requires
            self.wf(),
            store.wf(),
            forall|k: &Vec<u8>| #[trigger] f.requires((k,)),
        ensures
            r@.len() <= sorted_keys(self.live_keys(store@)).len(),
            byte_seqs(r@) == sorted_keys(self.live_keys(store@)).take(r@.len() as int),
            forall|i: int| 0 <= i < r@.len() ==> f.ensures((&(#[trigger] r@[i]),), true),
            r@.len() < sorted_keys(self.live_keys(store@)).len() ==> exists|k: Vec<u8>|
                k@ == sorted_keys(self.live_keys(store@))[r@.len() as int] && #[trigger] f.ensures((&k,), false),
    {
        let mut keys = self.keys(store);
        let ghost q = byte_seqs(keys@);
        proof {
            let c = sorted_keys(self.live_keys(store@));
            assert(lex_sorted(c) && c.to_set() == self.live_keys(store@));
            lemma_sorted_unique(c, q);
        }
        let mut r: Vec<Vec<u8>> = Vec::new();
        while keys.len() > 0
            invariant
                q == sorted_keys(self.live_keys(store@)),
                r@.len() + keys@.len() == q.len(),
                byte_seqs(r@) == q.take(r@.len() as int),
                byte_seqs(keys@) == q.skip(r@.len() as int),
                forall|k: &Vec<u8>| #[trigger] f.requires((k,)),
                forall|i: int| 0 <= i < r@.len() ==> f.ensures((&(#[trigger] r@[i]),), true),
            decreases keys.len(),
        {
            let ghost before = keys@;
            let k = keys.remove(0);
            assert(k@ == q[r@.len() as int]) by {
                assert(byte_seqs(before)[0] == before[0]@);
            }
            let accepted = f(&k);
            if !accepted {
                return r;
            }
            let ghost prev = r@;
            r.push(k);
            proof {
                assert(byte_seqs(r@) =~= q.take(r@.len() as int));
                assert(keys@ =~= before.skip(1));
                assert forall|j: int| 0 <= j < keys@.len() implies byte_seqs(keys@)[j] == q.skip(r@.len() as int)[j] by {
                    assert(byte_seqs(keys@)[j] == keys@[j]@);
                    assert(keys@[j] == before[j + 1]);
                    assert(byte_seqs(before)[j + 1] == before[j + 1]@);
                }
                assert(byte_seqs(keys@) =~= q.skip(r@.len() as int));
                assert forall|i: int| 0 <= i < r@.len() implies f.ensures((&(#[trigger] r@[i]),), true) by {
                    if i < prev.len() {
                        assert(r@[i] == prev[i]);
                    }
                }
            }
        }
        r
    }

    /// A copy of the collection with the same pending state, each pending sub-view copied.
    pub fn clone_unchecked(&self) -> (r: ByteCollectionView<W>)
        requires
            self.wf(),
        ensures
            r.wf(),
            r.base_key() == self.base_key(),
            r.deletes_storage_first() == self.deletes_storage_first(),
            r.stored_hash_of() == self.stored_hash_of(),
            r.cached_hash_of() == self.cached_hash_of(),
            r.pending().dom() == self.pending().dom(),
            forall|k: Seq<u8>| #[trigger] r.pending().contains_key(k) ==> (r.pending()[k] is Value <==> self.pending()[k] is Value),
            forall|k: Seq<u8>, store: Map<Seq<u8>, Seq<u8>>| #[trigger] r.is_live(k, store) == self.is_live(k, store),
            forall|k: Seq<u8>, store: Map<Seq<u8>, Seq<u8>>| #[trigger] r.entry_hash(k, store) == self.entry_hash(k, store),
    {
        let mut updates: Vec<(Vec<u8>, Update<W>)> = Vec::new();
        let mut i: usize = 0;
        while i < self.updates.len()
            invariant
                i <= self.updates.len(),
                self.wf(),
                updates@.len() == i,
                forall|j: int| 0 <= j < i ==> (#[trigger] updates@[j]).0@ == self.updates@[j].0@
                    && (updates@[j].1 is Value <==> self.updates@[j].1 is Value),
                forall|j: int| 0 <= j < i && (#[trigger] updates@[j]).1 is Value ==> {
                    let a = updates@[j].1->Value_0;
                    let b = self.updates@[j].1->Value_0;
                    &&& a.inv()
                    &&& a.context_of() == b.context_of()
                    &&& forall|store: Map<Seq<u8>, Seq<u8>>| #[trigger] a.hash_of(store) == b.hash_of(store)
                },
            decreases self.updates.len() - i,
        {
            let key = self.updates[i].0.clone();
            let value = match &self.updates[i].1 {
                Update::Removed => Update::Removed,
                Update::Value(view) => Update::Value(view.clone_unchecked()),
            };
            updates.push((key, value));
            i = i + 1;
        }
        let r = ByteCollectionView {
            context: self.context.clone(),
            delete_storage_first: self.delete_storage_first,
            updates,
            stored_hash: match &self.stored_hash {
                Some(h) => Some(h.clone()),
                None => None,
            },
            hash: match &self.hash {
                Some(h) => Some(h.clone()),
                None => None,
            },
        };
        proof {
            let s = r.updates@;
            let o = self.updates@;
            assert forall|a: int, b: int| 0 <= a < b < s.len() implies #[trigger] s[a].0@ != #[trigger] s[b].0@ by {
                assert(o[a].0@ != o[b].0@);
            }
            assert forall|k: Seq<u8>| #[trigger] r.pending().contains_key(k) == self.pending().contains_key(k) by {
                if r.pending().contains_key(k) {
                    let j = choose|j: int| 0 <= j < s.len() && #[trigger] s[j].0@ == k;
                    assert(o[j].0@ == k);
                }
                if self.pending().contains_key(k) {
                    let j = choose|j: int| 0 <= j < o.len() && #[trigger] o[j].0@ == k;
                    assert(s[j].0@ == k);
                }
            }
            assert(r.pending().dom() =~= self.pending().dom());
            assert forall|k: Seq<u8>| #[trigger] r.pending().contains_key(k) implies {
                let a = r.pending()[k];
                let b = self.pending()[k];
                &&& (a is Value <==> b is Value)
                &&& a is Value ==> forall|store: Map<Seq<u8>, Seq<u8>>| #[trigger] a->Value_0.hash_of(store) == b->Value_0.hash_of(store)
            } by {
                let j = choose|j: int| 0 <= j < s.len() && #[trigger] s[j].0@ == k;
                lemma_updates_map_at(s, j);
                lemma_updates_map_at(o, j);
            }
            assert forall|k: Seq<u8>, store: Map<Seq<u8>, Seq<u8>>| #[trigger] r.entry_hash(k, store) == self.entry_hash(k, store) by {
                if r.pending().contains_key(k) {
                    let a = r.pending()[k];
                    if a is Value {
                        assert(a->Value_0.hash_of(store) == self.pending()[k]->Value_0.hash_of(store));
                    }
                }
            }
        }
        r
    }

    /// Marks the entry `short_key` as removed; nothing changes if it is absent.
    pub fn remove_entry(&mut self, short_key: Vec<u8>)
        requires
            old(self).wf(),
        ensures
            final(self).wf(),
            final(self).base_key() == old(self).base_key(),
            final(self).deletes_storage_first() == old(self).deletes_storage_first(),
            final(self).stored_hash_of() == old(self).stored_hash_of(),
            final(self).cached_hash_of() is None,
            old(self).deletes_storage_first() ==> final(self).pending() == old(self).pending().remove(short_key@),
            !old(self).deletes_storage_first() ==> final(self).pending() == old(self).pending().insert(short_key@, Update::Removed),
            forall|k: Seq<u8>, store: Map<Seq<u8>, Seq<u8>>| #[trigger] final(self).is_live(k, store) == (k != short_key@ && old(self).is_live(k, store)),
    {
        self.hash = None;
        let found = self.find_update(short_key.as_slice());
        let ghost old_updates = self.updates@;
        if self.delete_storage_first {
            match found {
                Some(i) => {
                    self.updates.remove(i);
                    proof {
                        let s = self.updates@;
                        assert(s =~= old_updates.remove(i as int));
                        assert forall|a: int, b: int| 0 <= a < b < s.len() implies #[trigger] s[a].0@ != #[trigger] s[b].0@ by {
                            if b < i {
                                assert(s[a] == old_updates[a] && s[b] == old_updates[b]);
                            } else if a < i {
                                assert(s[a] == old_updates[a] && s[b] == old_updates[b + 1]);
                            } else {
                                assert(s[a] == old_updates[a + 1] && s[b] == old_updates[b + 1]);
                            }
                        }
                        assert forall|k: Seq<u8>| #[trigger] updates_map(s).contains_key(k) == updates_map(old_updates).remove(short_key@).contains_key(k) by {
                            if updates_map(s).contains_key(k) {
                                let j = choose|j: int| 0 <= j < s.len() && #[trigger] s[j].0@ == k;
                                if j < i { assert(s[j] == old_updates[j]); lemma_updates_map_at(old_updates, j); }
                                else { assert(s[j] == old_updates[j + 1]); lemma_updates_map_at(old_updates, j + 1); }
                            }
                            if updates_map(old_updates).remove(short_key@).contains_key(k) {
                                let j = choose|j: int| 0 <= j < old_updates.len() && #[trigger] old_updates[j].0@ == k;
                                if j < i { assert(s[j] == old_updates[j]); }
                                else if j > i { assert(s[j - 1] == old_updates[j]); }
                            }
                        }
                        assert forall|k: Seq<u8>| #[trigger] updates_map(s).contains_key(k) implies updates_map(s)[k] == updates_map(old_updates)[k] by {
                            let j = choose|j: int| 0 <= j < s.len() && #[trigger] s[j].0@ == k;
                            lemma_updates_map_at(s, j);
                            if j < i { assert(s[j] == old_updates[j]); lemma_updates_map_at(old_updates, j); }
                            else { assert(s[j] == old_updates[j + 1]); lemma_updates_map_at(old_updates, j + 1); }
                        }
                        assert(updates_map(s) =~= updates_map(old_updates).remove(short_key@));
                    }
                },
                None => {
                    assert(self.pending() =~= old(self).pending().remove(short_key@));
                },
            }
        } else {
            match found {
                Some(i) => {
                    self.updates.set(i, (short_key, Update::Removed));
                    proof {
                        let s = self.updates@;
                        assert forall|a: int, b: int| 0 <= a < b < s.len() implies #[trigger] s[a].0@ != #[trigger] s[b].0@ by {
                            assert(s[a].0@ == old_updates[a].0@ && s[b].0@ == old_updates[b].0@);
                        }
                        assert forall|k: Seq<u8>| #[trigger] updates_map(s).contains_key(k) == updates_map(old_updates).insert(short_key@, Update::Removed).contains_key(k) by {
                            if updates_map(s).contains_key(k) {
                                let j = choose|j: int| 0 <= j < s.len() && #[trigger] s[j].0@ == k;
                                if j != i { assert(s[j] == old_updates[j]); }
                            }
                            if updates_map(old_updates).contains_key(k) {
                                let j = choose|j: int| 0 <= j < old_updates.len() && #[trigger] old_updates[j].0@ == k;
                                assert(s[j].0@ == old_updates[j].0@);
                            }
                        }
                        assert forall|k: Seq<u8>| #[trigger] updates_map(s).contains_key(k) implies updates_map(s)[k] == updates_map(old_updates).insert(short_key@, Update::Removed)[k] by {
                            let j = choose|j: int| 0 <= j < s.len() && #[trigger] s[j].0@ == k;
                            lemma_updates_map_at(s, j);
                            if j != i { assert(s[j] == old_updates[j]); lemma_updates_map_at(old_updates, j); }
                        }
                        assert(updates_map(s) =~= updates_map(old_updates).insert(short_key@, Update::Removed));
                    }
                },
                None => {
                    self.updates.push((short_key, Update::Removed));
                    proof {
                        let s = self.updates@;
                        assert forall|a: int, b: int| 0 <= a < b < s.len() implies #[trigger] s[a].0@ != #[trigger] s[b].0@ by {
                            if b == s.len() - 1 {
                                assert(s[a] == old_updates[a]);
                                lemma_updates_map_at(old_updates, a);
                            } else {
                                assert(s[a] == old_updates[a] && s[b] == old_updates[b]);
                            }
                        }
                        assert forall|k: Seq<u8>| #[trigger] updates_map(s).contains_key(k) == updates_map(old_updates).insert(short_key@, Update::Removed).contains_key(k) by {
                            if updates_map(s).contains_key(k) {
                                let j = choose|j: int| 0 <= j < s.len() && #[trigger] s[j].0@ == k;
                                if j < s.len() - 1 { assert(s[j] == old_updates[j]); }
                            }
                            if updates_map(old_updates).contains_key(k) {
                                let j = choose|j: int| 0 <= j < old_updates.len() && #[trigger] old_updates[j].0@ == k;
                                assert(s[j] == old_updates[j]);
                            }
                            if k == short_key@ {
                                assert(s[s.len() - 1].0@ == k);
                            }
                        }
                        assert forall|k: Seq<u8>| #[trigger] updates_map(s).contains_key(k) implies updates_map(s)[k] == updates_map(old_updates).insert(short_key@, Update::Removed)[k] by {
                            let j = choose|j: int| 0 <= j < s.len() && #[trigger] s[j].0@ == k;
                            lemma_updates_map_at(s, j);
                            if j < s.len() - 1 { assert(s[j] == old_updates[j]); lemma_updates_map_at(old_updates, j); }
                        }
                        assert(updates_map(s) =~= updates_map(old_updates).insert(short_key@, Update::Removed));
                    }
                },
            }
        }
    }
}

/// The short keys of the entries that the store holds under `context`.
pub open spec fn stored_keys(context: Seq<u8>, store: Map<Seq<u8>, Seq<u8>>) -> Set<Seq<u8>> {
    Set::new(|k: Seq<u8>| store.contains_key(tag_index_key(context, TAG_INDEX, k)))
}

impl<W: StoredView> StoredView for ByteCollectionView<W> {
    closed spec fn context_of(&self) -> Seq<u8> {
        self.context@
    }

    closed spec fn inv(&self) -> bool {
        self.wf()
    }

    closed spec fn pending_free(&self) -> bool {
        !self.delete_storage_first && self.pending() == Map::<Seq<u8>, Update<W>>::empty()
    }

    closed spec fn is_cleared(&self) -> bool {
        self.delete_storage_first && self.pending() == Map::<Seq<u8>, Update<W>>::empty()
    }

    closed spec fn hash_of(&self, store: Map<Seq<u8>, Seq<u8>>) -> Seq<u8> {
        self.contents_hash(store)
    }

    closed spec fn loaded_hash(context: Seq<u8>, store: Map<Seq<u8>, Seq<u8>>) -> Seq<u8> {
        sha3_256_of(hash_preimage(
            sorted_keys(stored_keys(context, store)),
            |k: Seq<u8>| W::loaded_hash(tag_index_key(context, TAG_SUBVIEW, k), store),
        ))
    }

    fn load(context: Vec<u8>, store: &MemoryStore) -> (r: ByteCollectionView<W>) {
        let r = ByteCollectionView::<W>::load(context, store);
        proof {
            assert(r.live_keys(store@) =~= stored_keys(context@, store@));
            let f1 = |k: Seq<u8>| r.entry_hash(k, store@);
            let f2 = |k: Seq<u8>| W::loaded_hash(tag_index_key(context@, TAG_SUBVIEW, k), store@);
            assert(f1 =~= f2);
        }
        r
    }

    fn rollback(&mut self) {
        ByteCollectionView::<W>::rollback(self);
    }

    fn clear(&mut self) {
        ByteCollectionView::<W>::clear(self);
    }

    fn flush(&mut self, batch: &mut Batch) {
        ByteCollectionView::<W>::flush(self, batch);
    }

    fn clone_unchecked(&self) -> (r: ByteCollectionView<W>) {
        let r = ByteCollectionView::<W>::clone_unchecked(self);
        proof {
            assert forall|store: Map<Seq<u8>, Seq<u8>>| #[trigger] r.contents_hash(store) == self.contents_hash(store) by {
                assert(r.live_keys(store) =~= self.live_keys(store));
                let f1 = |k: Seq<u8>| r.entry_hash(k, store);
                let f2 = |k: Seq<u8>| self.entry_hash(k, store);
                assert(f1 =~= f2);
            }
            if self.pending() == Map::<Seq<u8>, Update<W>>::empty() {
                assert(r.pending() =~= Map::<Seq<u8>, Update<W>>::empty());
            }
            if r.pending() == Map::<Seq<u8>, Update<W>>::empty() {
                assert(self.pending() =~= Map::<Seq<u8>, Update<W>>::empty());
            }
        }
        r
    }

    fn hash(&self, store: &MemoryStore) -> (r: Vec<u8>) {
        self.compute_hash(store)
    }
}

} // verus!
