//! Write batches and an in-memory key-value store that applies them.

use vstd::prelude::*;
use crate::order::{byte_seqs, bytes_equal, insert_sorted, lex_sorted};
use vstd::slice::{slice_subrange, slice_to_vec};

verus! {

/// Whether `p` is a prefix of `k`.
pub open spec fn is_prefix(p: Seq<u8>, k: Seq<u8>) -> bool {
    p.len() <= k.len() && k.take(p.len() as int) == p
}

/// One operation of a write batch.
#[derive(Debug)]
pub enum WriteOp {
    /// Sets the value of a key.
    Put { key: Vec<u8>, value: Vec<u8> },
    /// Removes a key.
    Delete { key: Vec<u8> },
    /// Removes every key that starts with the prefix.
    DeletePrefix { key_prefix: Vec<u8> },
}

/// The store contents after one operation.
pub open spec fn apply_op(m: Map<Seq<u8>, Seq<u8>>, op: WriteOp) -> Map<Seq<u8>, Seq<u8>> {
    match op {
        WriteOp::Put { key, value } => m.insert(key@, value@),
        WriteOp::Delete { key } => m.remove(key@),
        WriteOp::DeletePrefix { key_prefix } => m.restrict(
            m.dom().filter(|k: Seq<u8>| !is_prefix(key_prefix@, k)),
        ),
    }
}

/// The store contents after the operations, applied in order.
pub open spec fn apply_ops(m: Map<Seq<u8>, Seq<u8>>, ops: Seq<WriteOp>) -> Map<Seq<u8>, Seq<u8>>
    decreases ops.len(),
{
    if ops.len() == 0 {
        m
    } else {
        apply_op(apply_ops(m, ops.drop_last()), ops.last())
    }
}

/// An ordered list of operations, applied atomically and in order.
#[derive(Debug)]
pub struct Batch {
    pub operations: Vec<WriteOp>,
}

impl Batch {
    /// An empty batch.
    pub fn new() -> (r: Batch)
        ensures
            r.operations@ == Seq::<WriteOp>::empty(),
    {
        Batch { operations: Vec::new() }
    }

    /// Appends the setting of `key` to `value`.
    pub fn put_key_value_bytes(&mut self, key: Vec<u8>, value: Vec<u8>)
        ensures
            final(self).operations@ == old(self).operations@.push(WriteOp::Put { key, value }),
    {
        self.operations.push(WriteOp::Put { key, value });
    }

    /// Appends the removal of `key`.
    pub fn delete_key(&mut self, key: Vec<u8>)
        ensures
            final(self).operations@ == old(self).operations@.push(WriteOp::Delete { key }),
    {
        self.operations.push(WriteOp::Delete { key });
    }

    /// Appends the removal of every key under `key_prefix`.
    pub fn delete_key_prefix(&mut self, key_prefix: Vec<u8>)
        ensures
            final(self).operations@ == old(self).operations@.push(WriteOp::DeletePrefix { key_prefix }),
    {
        self.operations.push(WriteOp::DeletePrefix { key_prefix });
    }
}

/// The entries' keys are distinct.
pub open spec fn unique_keys(e: Seq<(Vec<u8>, Vec<u8>)>) -> bool {
    forall|i: int, j: int| 0 <= i < j < e.len() ==> #[trigger] e[i].0@ != #[trigger] e[j].0@
}

/// The map that a list of entries with distinct keys holds.
pub open spec fn entries_map(e: Seq<(Vec<u8>, Vec<u8>)>) -> Map<Seq<u8>, Seq<u8>>
    decreases e.len(),
{
    if e.len() == 0 {
        Map::empty()
    } else {
        entries_map(e.drop_last()).insert(e.last().0@, e.last().1@)
    }
}

proof fn lemma_entries_map(e: Seq<(Vec<u8>, Vec<u8>)>)
    requires
        unique_keys(e),
    ensures
        forall|k: Seq<u8>| entries_map(e).contains_key(k) <==> exists|i: int| 0 <= i < e.len() && #[trigger] e[i].0@ == k,
        forall|i: int| 0 <= i < e.len() ==> entries_map(e)[#[trigger] e[i].0@] == e[i].1@,
    decreases e.len(),
{
    if e.len() > 0 {
        let d = e.drop_last();
        assert(unique_keys(d));
        lemma_entries_map(d);
        assert forall|k: Seq<u8>| entries_map(e).contains_key(k) <==> exists|i: int| 0 <= i < e.len() && #[trigger] e[i].0@ == k by {
            if entries_map(e).contains_key(k) && k != e.last().0@ {
                assert(entries_map(e) == entries_map(d).insert(e.last().0@, e.last().1@));
                assert(entries_map(d).contains_key(k));
                let i = choose|i: int| 0 <= i < d.len() && #[trigger] d[i].0@ == k;
                assert(d[i] == e[i]);
                assert(e[i].0@ == k);
            }
            if k == e.last().0@ {
                assert(e[e.len() - 1].0@ == k);
            }
            if exists|i: int| 0 <= i < e.len() && #[trigger] e[i].0@ == k {
                let i = choose|i: int| 0 <= i < e.len() && #[trigger] e[i].0@ == k;
                if i < e.len() - 1 {
                    assert(d[i] == e[i]);
                    assert(d[i].0@ == k);
                }
            }
        }
        assert forall|i: int| 0 <= i < e.len() implies entries_map(e)[#[trigger] e[i].0@] == e[i].1@ by {
            if i < e.len() - 1 {
                assert(d[i] == e[i]);
                assert(e[i].0@ != e[e.len() - 1].0@);
            }
        }
    }
}

/// Whether a key stays when `key` (or, where `whole_prefix`, every key under it) is removed.
pub open spec fn keeps(key: Seq<u8>, whole_prefix: bool, k: Seq<u8>) -> bool {
    if whole_prefix { !is_prefix(key, k) } else { k != key }
}

/// The entries of `m` that stay when `key` (or every key under it) is removed.
pub open spec fn kept(m: Map<Seq<u8>, Seq<u8>>, key: Seq<u8>, whole_prefix: bool) -> Map<Seq<u8>, Seq<u8>> {
    m.restrict(m.dom().filter(|k: Seq<u8>| keeps(key, whole_prefix, k)))
}

/// An in-memory key-value store.
pub struct MemoryStore {
    entries: Vec<(Vec<u8>, Vec<u8>)>,
}

impl View for MemoryStore {
    type V = Map<Seq<u8>, Seq<u8>>;

    closed spec fn view(&self) -> Map<Seq<u8>, Seq<u8>> {
        entries_map(self.entries@)
    }
}

impl MemoryStore {
    /// Its entries have distinct keys.
    pub closed spec fn wf(&self) -> bool {
        unique_keys(self.entries@)
    }

    /// An empty store.
    pub fn new() -> (r: MemoryStore)
        ensures
            r.wf(),
            r@ == Map::<Seq<u8>, Seq<u8>>::empty(),
    {
        MemoryStore { entries: Vec::new() }
    }

    fn position(&self, key: &[u8]) -> (r: Option<usize>)
        requires
            self.wf(),
        ensures
            r matches Some(i) ==> i < self.entries.len() && self.entries@[i as int].0@ == key@,
            r is None ==> !self@.contains_key(key@),
    {
        proof { lemma_entries_map(self.entries@); }
        let mut i: usize = 0;
        while i < self.entries.len()
            invariant
                i <= self.entries.len(),
                forall|j: int| 0 <= j < i ==> #[trigger] self.entries@[j].0@ != key@,
            decreases self.entries.len() - i,
        {
            if bytes_equal(self.entries[i].0.as_slice(), key) {
                return Some(i);
            }
            i = i + 1;
        }
        None
    }

    /// The value of `key`, if any.
    pub fn read_value(&self, key: &[u8]) -> (r: Option<Vec<u8>>)
        requires
            self.wf(),
        ensures
            r is Some <==> self@.contains_key(key@),
            r matches Some(v) ==> v@ == self@[key@],
    {
        proof { lemma_entries_map(self.entries@); }
        match self.position(key) {
            Some(i) => Some(self.entries[i].1.clone()),
            None => None,
        }
    }

    /// Whether `key` has a value.
    pub fn contains_key(&self, key: &[u8]) -> (r: bool)
        requires
            self.wf(),
        ensures
            r == self@.contains_key(key@),
    {
        proof { lemma_entries_map(self.entries@); }
        self.position(key).is_some()
    }

    /// The entries, less those whose key is `key` (or, where `whole_prefix`, starts with `key`).
    fn entries_without(&self, key: &[u8], whole_prefix: bool) -> (r: Vec<(Vec<u8>, Vec<u8>)>)
        requires
            self.wf(),
        ensures
            unique_keys(r@),
            entries_map(r@) == kept(self@, key@, whole_prefix),
    {
        let mut r: Vec<(Vec<u8>, Vec<u8>)> = Vec::new();
        let mut i: usize = 0;
        assert(entries_map(r@) =~= kept(entries_map(self.entries@.take(0)), key@, whole_prefix));
        while i < self.entries.len()
            invariant
                i <= self.entries.len(),
                unique_keys(self.entries@),
                unique_keys(r@),
                entries_map(r@) == kept(entries_map(self.entries@.take(i as int)), key@, whole_prefix),
            decreases self.entries.len() - i,
        {
            let k = self.entries[i].0.as_slice();
            let drop = if whole_prefix {
                k.len() >= key.len() && bytes_equal(slice_subrange(k, 0, key.len()), key)
            } else {
                bytes_equal(k, key)
            };
            let ghost e = self.entries@;
            let ghost ti = e.take(i as int);
            let ghost ti1 = e.take(i + 1);
            proof {
                if whole_prefix && k@.len() >= key@.len() {
                    assert(k@.subrange(0, key@.len() as int) =~= k@.take(key@.len() as int));
                }
                assert(drop == !keeps(key@, whole_prefix, e[i as int].0@));
                assert(ti1.drop_last() =~= ti);
                assert(entries_map(ti1) == entries_map(ti).insert(e[i as int].0@, e[i as int].1@));
                assert(unique_keys(ti));
                lemma_entries_map(ti);
                assert(!entries_map(ti).contains_key(e[i as int].0@)) by {
                    if entries_map(ti).contains_key(e[i as int].0@) {
                        let j = choose|j: int| 0 <= j < ti.len() && #[trigger] ti[j].0@ == e[i as int].0@;
                        assert(ti[j] == e[j]);
                    }
                }
                lemma_entries_map(r@);
            }
            if !drop {
                let ghost prev = r@;
                r.push((self.entries[i].0.clone(), self.entries[i].1.clone()));
                proof {
                    assert(r@.drop_last() =~= prev);
                    assert forall|a: int, b: int| 0 <= a < b < r@.len() implies #[trigger] r@[a].0@ != #[trigger] r@[b].0@ by {
                        if b == r@.len() - 1 {
                            assert(r@[a] == prev[a]);
                            assert(entries_map(prev).contains_key(prev[a].0@));
                        } else {
                            assert(r@[a] == prev[a] && r@[b] == prev[b]);
                        }
                    }
                    assert(entries_map(r@) =~= kept(entries_map(ti1), key@, whole_prefix));
                }
            } else {
                proof {
                    assert(entries_map(r@) =~= kept(entries_map(ti1), key@, whole_prefix));
                }
            }
            i = i + 1;
        }
        assert(self.entries@.take(self.entries.len() as int) =~= self.entries@);
        r
    }

    /// Sets `key` to `value`.
    fn put(&mut self, key: Vec<u8>, value: Vec<u8>)
        requires
            old(self).wf(),
        ensures
            final(self).wf(),
            final(self)@ == old(self)@.insert(key@, value@),
    {
        let mut rest = self.entries_without(key.as_slice(), false);
        proof { lemma_entries_map(rest@); }
        let ghost prev = rest@;
        rest.push((key, value));
        proof {
            assert(rest@.drop_last() =~= prev);
            assert forall|a: int, b: int| 0 <= a < b < rest@.len() implies #[trigger] rest@[a].0@ != #[trigger] rest@[b].0@ by {
                if b == rest@.len() - 1 {
                    assert(rest@[a] == prev[a]);
                    assert(entries_map(prev).contains_key(prev[a].0@));
                } else {
                    assert(rest@[a] == prev[a] && rest@[b] == prev[b]);
                }
            }
        }
        self.entries = rest;
        assert(self@ =~= old(self)@.insert(key@, value@));
    }

    /// Applies the operations of `batch` in order.
    pub fn write_batch(&mut self, batch: Batch)
        requires
            old(self).wf(),
        ensures
            final(self).wf(),
            final(self)@ == apply_ops(old(self)@, batch.operations@),
    {
        let ops = batch.operations;
        let mut i: usize = 0;
        assert(ops@.take(0) =~= Seq::<WriteOp>::empty());
        while i < ops.len()
            invariant
                i <= ops.len(),
                self.wf(),
                self@ == apply_ops(old(self)@, ops@.take(i as int)),
            decreases ops.len() - i,
        {
            assert(ops@.take(i + 1).drop_last() =~= ops@.take(i as int));
            match &ops[i] {
                WriteOp::Put { key, value } => {
                    self.put(key.clone(), value.clone());
                },
                WriteOp::Delete { key } => {
                    self.entries = self.entries_without(key.as_slice(), false);
                },
                WriteOp::DeletePrefix { key_prefix } => {
                    self.entries = self.entries_without(key_prefix.as_slice(), true);
                },
            }
            proof {
                let m = apply_ops(old(self)@, ops@.take(i as int));
                match ops@[i as int] {
                    WriteOp::Put { key, value } => {},
                    WriteOp::Delete { key } => {
                        assert(kept(m, key@, false) =~= m.remove(key@));
                    },
                    WriteOp::DeletePrefix { key_prefix } => {
                        assert(kept(m, key_prefix@, true) =~= m.restrict(m.dom().filter(|k: Seq<u8>| !is_prefix(key_prefix@, k))));
                    },
                }
            }
            i = i + 1;
        }
        assert(ops@.take(ops.len() as int) =~= ops@);
    }

    /// The pairs of suffix after `prefix` and value, for the keys that start with it, in
    /// lexicographic order of the suffixes.
    pub fn find_key_values_by_prefix(&self, prefix: &[u8]) -> (r: Vec<(Vec<u8>, Vec<u8>)>)
        requires
            self.wf(),
        ensures
            lex_sorted(byte_seqs(r@.map_values(|p: (Vec<u8>, Vec<u8>)| p.0))),
            forall|s: Seq<u8>| byte_seqs(r@.map_values(|p: (Vec<u8>, Vec<u8>)| p.0)).to_set().contains(s)
                <==> self@.contains_key(prefix@ + s),
            forall|i: int| 0 <= i < r@.len() ==> #[trigger] r@[i].1@ == self@[prefix@ + r@[i].0@],
    {
        let keys = self.find_keys_by_prefix(prefix);
        let mut r: Vec<(Vec<u8>, Vec<u8>)> = Vec::new();
        let mut i: usize = 0;
        while i < keys.len()
            invariant
                i <= keys.len(),
                self.wf(),
                forall|s: Seq<u8>| byte_seqs(keys@).to_set().contains(s) <==> self@.contains_key(prefix@ + s),
                r@.len() == i,
                forall|j: int| 0 <= j < i ==> (#[trigger] r@[j]).0@ == keys@[j]@,
                forall|j: int| 0 <= j < i ==> #[trigger] r@[j].1@ == self@[prefix@ + r@[j].0@],
            decreases keys.len() - i,
        {
            let mut full = slice_to_vec(prefix);
            let suffix = &keys[i];
            let n = suffix.len();
            let mut j: usize = 0;
            let ghost p0 = full@;
            while j < n
                invariant
                    j <= n,
                    n == suffix@.len(),
                    full@ == p0 + suffix@.take(j as int),
                decreases n - j,
            {
                full.push(suffix[j]);
                j = j + 1;
                assert(full@ =~= p0 + suffix@.take(j as int));
            }
            assert(suffix@.take(n as int) =~= suffix@);
            assert(byte_seqs(keys@)[i as int] == keys@[i as int]@);
            assert(byte_seqs(keys@).to_set().contains(keys@[i as int]@));
            let value = match self.read_value(full.as_slice()) {
                Some(v) => v,
                None => Vec::new(),
            };
            r.push((keys[i].clone(), value));
            i = i + 1;
        }
        proof {
            let ks = byte_seqs(r@.map_values(|p: (Vec<u8>, Vec<u8>)| p.0));
            assert(ks =~= byte_seqs(keys@));
        }
        r
    }

    /// The suffixes after `prefix` of the keys that start with it, in lexicographic order.
    pub fn find_keys_by_prefix(&self, prefix: &[u8]) -> (r: Vec<Vec<u8>>)
        requires
            self.wf(),
        ensures
            lex_sorted(byte_seqs(r@)),
            forall|s: Seq<u8>| byte_seqs(r@).to_set().contains(s) <==> self@.contains_key(prefix@ + s),
    {
        proof { lemma_entries_map(self.entries@); }
        let mut r: Vec<Vec<u8>> = Vec::new();
        let mut i: usize = 0;
        assert(byte_seqs(r@).to_set() =~= Set::empty());
        while i < self.entries.len()
            invariant
                i <= self.entries.len(),
                lex_sorted(byte_seqs(r@)),
                forall|s: Seq<u8>| byte_seqs(r@).to_set().contains(s) <==> exists|j: int|
                    0 <= j < i && #[trigger] self.entries@[j].0@ == prefix@ + s,
            decreases self.entries.len() - i,
        {
            let key = self.entries[i].0.as_slice();
            if key.len() >= prefix.len() && bytes_equal(slice_subrange(key, 0, prefix.len()), prefix) {
                let suffix = slice_to_vec(slice_subrange(key, prefix.len(), key.len()));
                assert(key@ =~= prefix@ + suffix@);
                let ghost before = byte_seqs(r@).to_set();
                insert_sorted(&mut r, suffix);
                assert forall|s: Seq<u8>| byte_seqs(r@).to_set().contains(s) <==> exists|j: int|
                    0 <= j < i + 1 && #[trigger] self.entries@[j].0@ == prefix@ + s by {
                    if prefix@ + s == key@ {
                        assert(s =~= (prefix@ + s).skip(prefix@.len() as int));
                        assert(suffix@ =~= key@.skip(prefix@.len() as int));
                    }
                    if exists|j: int| 0 <= j < i + 1 && #[trigger] self.entries@[j].0@ == prefix@ + s {
                        let j = choose|j: int| 0 <= j < i + 1 && #[trigger] self.entries@[j].0@ == prefix@ + s;
                        if j == i {
                            assert(s =~= (prefix@ + s).skip(prefix@.len() as int));
                            assert(suffix@ =~= key@.skip(prefix@.len() as int));
                        }
                    }
                }
            } else {
                assert forall|s: Seq<u8>| byte_seqs(r@).to_set().contains(s) <==> exists|j: int|
                    0 <= j < i + 1 && #[trigger] self.entries@[j].0@ == prefix@ + s by {
                    if self.entries@[i as int].0@ == prefix@ + s {
                        assert((prefix@ + s).take(prefix@.len() as int) =~= prefix@);
                    }
                }
            }
            i = i + 1;
        }
        r
    }
}

} // verus!
