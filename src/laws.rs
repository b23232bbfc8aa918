//! Laws of the collection engine, stated over its model and proved.

use vstd::prelude::*;
use crate::collection_view::{
    hash_at, hash_preimage, hash_records, index_after, le_bytes, sorted_keys, stored_keys, ByteCollectionView, Update,
};
use crate::order::lex_sorted;
use crate::store::{apply_op, apply_ops, is_prefix, WriteOp};
use crate::views::{op_under, ops_under, sha3_256_of, tag_index_key, StoredView, TAG_INDEX};

verus! {

/// Two collections loaded from the same store under the same key prefix agree on every
/// observable: their existing keys, their digests and the digest they found stored. (A flush
/// of such a collection appends nothing, so reloading after it sees the same store.)
pub proof fn lemma_load_idempotent<W: StoredView>(
    a: ByteCollectionView<W>,
    b: ByteCollectionView<W>,
    context: Seq<u8>,
    store: Map<Seq<u8>, Seq<u8>>,
)
    requires
        a.is_loaded_from(context, store),
        b.is_loaded_from(context, store),
    ensures
        a.live_keys(store) == b.live_keys(store),
        a.live_keys(store) == stored_keys(context, store),
        a.contents_hash(store) == b.contents_hash(store),
        a.stored_hash_of() == b.stored_hash_of(),
        apply_ops(store, Seq::<WriteOp>::empty()) == store,
{
    assert(a.live_keys(store) =~= b.live_keys(store));
    assert(a.live_keys(store) =~= stored_keys(context, store));
    let f = |k: Seq<u8>| a.entry_hash(k, store);
    let g = |k: Seq<u8>| b.entry_hash(k, store);
    assert(f =~= g);
}

/// After a rollback the collection shows what the store holds: the stored keys, and the
/// digest of the sub-views as stored.
pub proof fn lemma_rollback_erases<W: StoredView>(v: ByteCollectionView<W>, store: Map<Seq<u8>, Seq<u8>>)
    requires
        !v.deletes_storage_first(),
        v.pending() == Map::<Seq<u8>, Update<W>>::empty(),
    ensures
        v.live_keys(store) == stored_keys(v.base_key(), store),
        forall|k: Seq<u8>| #[trigger] v.entry_hash(k, store) == W::loaded_hash(
            tag_index_key(v.base_key(), crate::views::TAG_SUBVIEW, k), store),
{
    assert(v.live_keys(store) =~= stored_keys(v.base_key(), store));
}

proof fn lemma_records_agree(keys: Seq<Seq<u8>>, f: spec_fn(Seq<u8>) -> Seq<u8>, g: spec_fn(Seq<u8>) -> Seq<u8>)
    requires
        forall|i: int| 0 <= i < keys.len() ==> f(#[trigger] keys[i]) == g(keys[i]),
    ensures
        hash_records(keys, f) == hash_records(keys, g),
    decreases keys.len(),
{
    if keys.len() > 0 {
        let d = keys.drop_last();
        assert forall|i: int| 0 <= i < d.len() implies f(#[trigger] d[i]) == g(d[i]) by {
            assert(d[i] == keys[i]);
        }
        lemma_records_agree(d, f, g);
        assert(f(keys[keys.len() - 1]) == g(keys[keys.len() - 1]));
    }
}

/// Two collections with the same existing keys, whose entries have the same digests, have the
/// same digest, whatever changes led each of them there. `keys` is the ordered listing of the
/// existing keys, as `keys()` returns it.
pub proof fn lemma_hash_determinism<W: StoredView>(
    a: ByteCollectionView<W>,
    b: ByteCollectionView<W>,
    store: Map<Seq<u8>, Seq<u8>>,
    keys: Seq<Seq<u8>>,
)
    requires
        lex_sorted(keys),
        keys.to_set() == a.live_keys(store),
        a.live_keys(store) == b.live_keys(store),
        forall|k: Seq<u8>| a.live_keys(store).contains(k) ==> #[trigger] a.entry_hash(k, store) == b.entry_hash(k, store),
    ensures
        a.contents_hash(store) == b.contents_hash(store),
{
    let s = a.live_keys(store);
    let q = sorted_keys(s);
    let f = |k: Seq<u8>| a.entry_hash(k, store);
    let g = |k: Seq<u8>| b.entry_hash(k, store);
    assert(lex_sorted(q) && q.to_set() == s);
    assert forall|i: int| 0 <= i < q.len() implies f(#[trigger] q[i]) == g(q[i]) by {
        assert(q.to_set().contains(q[i]));
    }
    lemma_records_agree(q, f, g);
}

/// After a clear, no entry exists whatever the store holds, and the digest is that of an
/// empty collection: the digest of the count zero.
pub proof fn lemma_clear_mask<W: StoredView>(v: ByteCollectionView<W>, store: Map<Seq<u8>, Seq<u8>>)
    requires
        v.deletes_storage_first(),
        v.pending() == Map::<Seq<u8>, Update<W>>::empty(),
    ensures
        v.live_keys(store) == Set::<Seq<u8>>::empty(),
        forall|k: Seq<u8>| !(#[trigger] v.is_live(k, store)),
        v.contents_hash(store) == sha3_256_of(le_bytes(0, 8)),
{
    assert(v.live_keys(store) =~= Set::<Seq<u8>>::empty());
    let e = Seq::<Seq<u8>>::empty();
    assert(lex_sorted(e) && e.to_set() =~= Set::<Seq<u8>>::empty());
    let q = sorted_keys(v.live_keys(store));
    assert(lex_sorted(q) && q.to_set() == Set::<Seq<u8>>::empty());
    if q.len() > 0 {
        assert(q.to_set().contains(q[0]));
    }
    assert(q.len() == 0);
    let f = |k: Seq<u8>| v.entry_hash(k, store);
    assert(hash_preimage(q, f) =~= le_bytes(0, 8));
}

proof fn lemma_prefix_trans(a: Seq<u8>, b: Seq<u8>, c: Seq<u8>)
    requires
        is_prefix(a, b),
        is_prefix(b, c),
    ensures
        is_prefix(a, c),
{
    assert(c.take(a.len() as int) =~= c.take(b.len() as int).take(a.len() as int));
}

/// Operations that stay under the prefix `p` leave every key outside it as it was.
pub proof fn lemma_apply_outside(m: Map<Seq<u8>, Seq<u8>>, ops: Seq<WriteOp>, p: Seq<u8>, k: Seq<u8>)
    requires
        ops_under(ops, 0, p),
        !is_prefix(p, k),
    ensures
        apply_ops(m, ops).contains_key(k) == m.contains_key(k),
        m.contains_key(k) ==> apply_ops(m, ops)[k] == m[k],
    decreases ops.len(),
{
    if ops.len() > 0 {
        let d = ops.drop_last();
        assert forall|i: int| 0 <= i < d.len() implies op_under(#[trigger] d[i], p) by {
            assert(d[i] == ops[i]);
        }
        lemma_apply_outside(m, d, p, k);
        let op = ops.last();
        assert(op_under(ops[ops.len() - 1], p));
        match op {
            WriteOp::Put { key, value } => {},
            WriteOp::Delete { key } => {},
            WriteOp::DeletePrefix { key_prefix } => {
                if is_prefix(key_prefix@, k) {
                    lemma_prefix_trans(p, key_prefix@, k);
                }
            },
        }
    }
}

/// Two views whose key prefixes are disjoint (neither starts the other) never see each other's
/// writes: operations under one prefix leave every key under the other as it was. Every
/// collection flush appends only such operations.
pub proof fn lemma_prefix_isolation(
    m: Map<Seq<u8>, Seq<u8>>,
    ops: Seq<WriteOp>,
    pa: Seq<u8>,
    pb: Seq<u8>,
    k: Seq<u8>,
)
    requires
        ops_under(ops, 0, pa),
        !is_prefix(pa, pb),
        !is_prefix(pb, pa),
        is_prefix(pb, k),
    ensures
        apply_ops(m, ops).contains_key(k) == m.contains_key(k),
        m.contains_key(k) ==> apply_ops(m, ops)[k] == m[k],
{
    if is_prefix(pa, k) {
        if pa.len() <= pb.len() {
            assert(pb.take(pa.len() as int) =~= k.take(pa.len() as int));
        } else {
            assert(pa.take(pb.len() as int) =~= k.take(pb.len() as int));
        }
    }
    lemma_apply_outside(m, ops, pa, k);
}

/// Round trip of the existing keys: the operations that a flush appends to an empty batch,
/// committed to the store the collection read from, make a reloaded collection show exactly the
/// keys that existed before the flush.
pub proof fn lemma_round_trip_keys<W: StoredView>(
    v: ByteCollectionView<W>,
    ops: Seq<WriteOp>,
    store: Map<Seq<u8>, Seq<u8>>,
    reloaded: ByteCollectionView<W>,
)
    requires
        v.persists_index(Seq::<WriteOp>::empty(), ops),
        reloaded.is_loaded_from(v.base_key(), apply_ops(store, ops)),
    ensures
        reloaded.live_keys(apply_ops(store, ops)) == v.live_keys(store),
{
    assert forall|x: Seq<u8>| #[trigger] reloaded.live_keys(apply_ops(store, ops)).contains(x) == v.live_keys(store).contains(x) by {
        assert(index_after(store, ops, v.base_key(), x) == (
            if v.pending().contains_key(x) {
                v.pending()[x] is Value
            } else {
                !v.deletes_storage_first() && index_after(store, Seq::<WriteOp>::empty(), v.base_key(), x)
            }));
        assert(apply_ops(store, Seq::<WriteOp>::empty()) == store);
    }
    assert(reloaded.live_keys(apply_ops(store, ops)) =~= v.live_keys(store));
}

/// One record of the digest input: the key's length in 8 bytes, the key, the entry's digest.
pub open spec fn hash_record(key: Seq<u8>, entry: spec_fn(Seq<u8>) -> Seq<u8>) -> Seq<u8> {
    le_bytes(key.len(), 8) + key + entry(key)
}

proof fn lemma_records_front(keys: Seq<Seq<u8>>, entry: spec_fn(Seq<u8>) -> Seq<u8>)
    requires
        keys.len() > 0,
    ensures
        hash_records(keys, entry) == hash_record(keys[0], entry) + hash_records(keys.skip(1), entry),
    decreases keys.len(),
{
    if keys.len() == 1 {
        assert(keys.drop_last() =~= Seq::<Seq<u8>>::empty());
        assert(keys.skip(1) =~= Seq::<Seq<u8>>::empty());
        assert(hash_records(keys, entry) =~= hash_record(keys[0], entry) + hash_records(keys.skip(1), entry));
    } else {
        let d = keys.drop_last();
        lemma_records_front(d, entry);
        assert(d[0] == keys[0]);
        assert(keys.skip(1).drop_last() =~= d.skip(1));
        assert(keys.skip(1).last() == keys.last());
        assert(hash_records(keys, entry) =~= hash_record(keys[0], entry) + hash_records(keys.skip(1), entry));
    }
}

proof fn lemma_le_bytes_injective(a: nat, b: nat, count: nat)
    requires
        a < crate::custom_key::pow256(count),
        b < crate::custom_key::pow256(count),
        le_bytes(a, count) == le_bytes(b, count),
    ensures
        a == b,
    decreases count,
{
    if count > 0 {
        let c = (count - 1) as nat;
        assert(le_bytes(a, count)[0] == le_bytes(b, count)[0]);
        assert(le_bytes(a, count)[0] == (a % 256) as u8);
        assert(le_bytes(b, count)[0] == (b % 256) as u8);
        assert(a % 256 == b % 256);
        assert(le_bytes(a, count).skip(1) =~= le_bytes(a / 256, c));
        assert(le_bytes(b, count).skip(1) =~= le_bytes(b / 256, c));
        assert(a / 256 < crate::custom_key::pow256(c) && b / 256 < crate::custom_key::pow256(c)) by (nonlinear_arith)
            requires a < 256 * crate::custom_key::pow256(c), b < 256 * crate::custom_key::pow256(c);
        lemma_le_bytes_injective(a / 256, b / 256, c);
        assert(a == 256 * (a / 256) + a % 256 && b == 256 * (b / 256) + b % 256) by (nonlinear_arith);
    } else {
        assert(crate::custom_key::pow256(0) == 1);
    }
}

proof fn lemma_le_bytes_len(n: nat, count: nat)
    ensures
        le_bytes(n, count).len() == count,
    decreases count,
{
    if count > 0 {
        lemma_le_bytes_len(n / 256, (count - 1) as nat);
    }
}

proof fn lemma_records_injective(
    k1: Seq<Seq<u8>>,
    f1: spec_fn(Seq<u8>) -> Seq<u8>,
    k2: Seq<Seq<u8>>,
    f2: spec_fn(Seq<u8>) -> Seq<u8>,
)
    requires
        k1.len() == k2.len(),
        forall|i: int| 0 <= i < k1.len() ==> (#[trigger] k1[i]).len() < crate::custom_key::pow256(8),
        forall|i: int| 0 <= i < k2.len() ==> (#[trigger] k2[i]).len() < crate::custom_key::pow256(8),
        forall|i: int| 0 <= i < k1.len() ==> f1(#[trigger] k1[i]).len() == 32,
        forall|i: int| 0 <= i < k2.len() ==> f2(#[trigger] k2[i]).len() == 32,
        hash_records(k1, f1) == hash_records(k2, f2),
    ensures
        k1 == k2,
        forall|i: int| 0 <= i < k1.len() ==> f1(#[trigger] k1[i]) == f2(k2[i]),
    decreases k1.len(),
{
    if k1.len() == 0 {
        assert(k1 =~= k2);
    } else {
        lemma_records_front(k1, f1);
        lemma_records_front(k2, f2);
        let a = k1[0];
        let b = k2[0];
        let la: int = a.len() as int;
        let lb: int = b.len() as int;
        let r1 = hash_records(k1, f1);
        lemma_le_bytes_len(a.len(), 8);
        lemma_le_bytes_len(b.len(), 8);
        assert(r1.subrange(0, 8) =~= le_bytes(a.len(), 8));
        assert(r1.subrange(0, 8) =~= le_bytes(b.len(), 8));
        lemma_le_bytes_injective(a.len(), b.len(), 8);
        assert(r1.subrange(8, 8 + la) =~= a);
        assert(r1.subrange(8, 8 + lb) =~= b);
        assert(f1(a).len() == 32 && f2(b).len() == 32);
        assert(r1.subrange(8 + la, 8 + la + 32) =~= f1(a));
        assert(r1.subrange(8 + lb, 8 + lb + 32) =~= f2(b));
        let n: int = 8 + la + 32;
        assert(r1.skip(n) =~= hash_records(k1.skip(1), f1));
        assert(r1.skip(n) =~= hash_records(k2.skip(1), f2));
        assert forall|i: int| 0 <= i < k1.skip(1).len() implies (#[trigger] k1.skip(1)[i]).len() < crate::custom_key::pow256(8)
            && f1(k1.skip(1)[i]).len() == 32 by {
            assert(k1.skip(1)[i] == k1[i + 1]);
        }
        assert forall|i: int| 0 <= i < k2.skip(1).len() implies (#[trigger] k2.skip(1)[i]).len() < crate::custom_key::pow256(8)
            && f2(k2.skip(1)[i]).len() == 32 by {
            assert(k2.skip(1)[i] == k2[i + 1]);
        }
        lemma_records_injective(k1.skip(1), f1, k2.skip(1), f2);
        assert(k1 =~= seq![a] + k1.skip(1));
        assert(k2 =~= seq![b] + k2.skip(1));
        assert forall|i: int| 0 <= i < k1.len() implies f1(#[trigger] k1[i]) == f2(k2[i]) by {
            if i > 0 {
                assert(k1[i] == k1.skip(1)[i - 1] && k2[i] == k2.skip(1)[i - 1]);
            }
        }
    }
}

/// The data that a digest is computed over determines the listing of the keys and the digest
/// of every entry: collections whose listings differ, or where an entry's digest differs, hash
/// different data (SHA3-256 then separates them unless it collides). Entry digests are the 32
/// bytes that `hash` returns; keys and their count are below 2^64.
pub proof fn lemma_hash_input_injective(
    k1: Seq<Seq<u8>>,
    f1: spec_fn(Seq<u8>) -> Seq<u8>,
    k2: Seq<Seq<u8>>,
    f2: spec_fn(Seq<u8>) -> Seq<u8>,
)
    requires
        k1.len() < crate::custom_key::pow256(8),
        k2.len() < crate::custom_key::pow256(8),
        forall|i: int| 0 <= i < k1.len() ==> (#[trigger] k1[i]).len() < crate::custom_key::pow256(8),
        forall|i: int| 0 <= i < k2.len() ==> (#[trigger] k2[i]).len() < crate::custom_key::pow256(8),
        forall|i: int| 0 <= i < k1.len() ==> f1(#[trigger] k1[i]).len() == 32,
        forall|i: int| 0 <= i < k2.len() ==> f2(#[trigger] k2[i]).len() == 32,
        hash_preimage(k1, f1) == hash_preimage(k2, f2),
    ensures
        k1 == k2,
        forall|i: int| 0 <= i < k1.len() ==> f1(#[trigger] k1[i]) == f2(k2[i]),
{
    let p = hash_preimage(k1, f1);
    lemma_le_bytes_len(k1.len(), 8);
    lemma_le_bytes_len(k2.len(), 8);
    assert(p.subrange(0, 8) =~= le_bytes(k1.len(), 8));
    assert(p.subrange(0, 8) =~= le_bytes(k2.len(), 8));
    lemma_le_bytes_injective(k1.len(), k2.len(), 8);
    assert(p.skip(8) =~= hash_records(k1, f1));
    assert(p.skip(8) =~= hash_records(k2, f2));
    lemma_records_injective(k1, f1, k2, f2);
}

/// After a clear, committing the flush empties the stored index: a collection reloaded from the
/// store holds no entry, whatever the store held before.
pub proof fn lemma_clear_then_flush_empties<W: StoredView>(
    v: ByteCollectionView<W>,
    ops: Seq<WriteOp>,
    store: Map<Seq<u8>, Seq<u8>>,
    reloaded: ByteCollectionView<W>,
)
    requires
        v.deletes_storage_first(),
        v.pending() == Map::<Seq<u8>, Update<W>>::empty(),
        v.persists_index(Seq::<WriteOp>::empty(), ops),
        reloaded.is_loaded_from(v.base_key(), apply_ops(store, ops)),
    ensures
        reloaded.live_keys(apply_ops(store, ops)) == Set::<Seq<u8>>::empty(),
{
    lemma_clear_mask(v, store);
    lemma_round_trip_keys(v, ops, store, reloaded);
}

/// Round trip of the digest: the operations that a flush appends to an empty batch, committed
/// to the store the collection was loaded from (or to any store once it was cleared), make a
/// reloaded collection find the digest the flushed one had cached.
pub proof fn lemma_round_trip_digest<W: StoredView>(
    v: ByteCollectionView<W>,
    ops: Seq<WriteOp>,
    store: Map<Seq<u8>, Seq<u8>>,
    reloaded: ByteCollectionView<W>,
)
    requires
        v.persists_digest(Seq::<WriteOp>::empty(), ops),
        v.deletes_storage_first() || hash_at(store, Seq::<WriteOp>::empty(), v.base_key()) == v.stored_hash_of(),
        reloaded.is_loaded_from(v.base_key(), apply_ops(store, ops)),
    ensures
        reloaded.stored_hash_of() == v.cached_hash_of(),
        reloaded.cached_hash_of() == v.cached_hash_of(),
{
    assert(hash_at(store, ops, v.base_key()) == v.cached_hash_of());
}

} // verus!
