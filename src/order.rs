//! The lexicographic order of byte strings, and sorted sequences of them.

use vstd::prelude::*;

verus! {

/// `a` comes strictly before `b` in lexicographic order: at the first place where they differ
/// `a` has the smaller byte, or `a` is a proper prefix of `b`.
pub open spec fn lex_lt(a: Seq<u8>, b: Seq<u8>) -> bool {
    exists|i: int| #[trigger] lex_split(a, b, i)
}

/// `i` is where `a` and `b` part, with `a` first.
pub open spec fn lex_split(a: Seq<u8>, b: Seq<u8>, i: int) -> bool {
    &&& 0 <= i <= a.len()
    &&& i < b.len()
    &&& forall|j: int| 0 <= j < i ==> a[j] == b[j]
    &&& (i == a.len() || a[i] < b[i])
}

/// Strictly increasing in lexicographic order.
pub open spec fn lex_sorted(s: Seq<Seq<u8>>) -> bool {
    forall|i: int, j: int| 0 <= i < j < s.len() ==> lex_lt(#[trigger] s[i], #[trigger] s[j])
}

/// Lexicographic order is irreflexive.
pub proof fn lemma_lex_lt_irreflexive(a: Seq<u8>, b: Seq<u8>)
    requires
        lex_lt(a, b),
    ensures
        a != b,
        !lex_lt(b, a),
{
    let i = choose|i: int| lex_split(a, b, i);
    if a == b {
        assert(false);
    }
    if lex_lt(b, a) {
        let k = choose|k: int| lex_split(b, a, k);
        if k < i {
            assert(a[k] == b[k]);
        } else if i < k {
            assert(b[i] == a[i]);
        }
    }
}

/// Lexicographic order is transitive.
pub proof fn lemma_lex_lt_transitive(a: Seq<u8>, b: Seq<u8>, c: Seq<u8>)
    requires
        lex_lt(a, b),
        lex_lt(b, c),
    ensures
        lex_lt(a, c),
{
    let i = choose|i: int| lex_split(a, b, i);
    let k = choose|k: int| lex_split(b, c, k);
    if i <= k {
        assert(lex_split(a, c, i));
    } else {
        assert(lex_split(a, c, k));
    }
}

/// The result of comparing two byte strings.
#[derive(Debug, Clone, Copy, PartialEq, Eq, Structural)]
pub enum Comparison {
    Less,
    Equal,
    Greater,
}

/// Compares two byte strings in lexicographic order.
pub fn compare_bytes(a: &[u8], b: &[u8]) -> (r: Comparison)
    ensures
        r == Comparison::Less <==> lex_lt(a@, b@),
        r == Comparison::Greater <==> lex_lt(b@, a@),
        r == Comparison::Equal <==> a@ == b@,
{
    let mut i: usize = 0;
    while i < a.len() && i < b.len() && a[i] == b[i]
        invariant
            i <= a.len(),
            i <= b.len(),
            forall|j: int| 0 <= j < i ==> a@[j] == b@[j],
        decreases a.len() - i,
    {
        i = i + 1;
    }
    if i == a.len() && i == b.len() {
        assert(a@ =~= b@);
        proof {
            if lex_lt(a@, b@) {
                lemma_lex_lt_irreflexive(a@, b@);
            }
        }
        Comparison::Equal
    } else if i == a.len() || (i < b.len() && a[i] < b[i]) {
        assert(lex_split(a@, b@, i as int));
        proof { lemma_lex_lt_irreflexive(a@, b@); }
        Comparison::Less
    } else {
        assert(lex_split(b@, a@, i as int));
        proof { lemma_lex_lt_irreflexive(b@, a@); }
        Comparison::Greater
    }
}

/// Whether two byte strings are equal.
pub fn bytes_equal(a: &[u8], b: &[u8]) -> (r: bool)
    ensures
        r == (a@ == b@),
{
    compare_bytes(a, b) == Comparison::Equal
}

/// The byte strings held by a vector of vectors.
pub open spec fn byte_seqs(v: Seq<Vec<u8>>) -> Seq<Seq<u8>> {
    v.map_values(|x: Vec<u8>| x@)
}

/// Inserts `k` into a sorted vector, keeping it sorted; nothing changes where `k` is present.
pub fn insert_sorted(v: &mut Vec<Vec<u8>>, k: Vec<u8>)
    requires
        lex_sorted(byte_seqs(old(v)@)),
    ensures
        lex_sorted(byte_seqs(final(v)@)),
        byte_seqs(final(v)@).to_set() == byte_seqs(old(v)@).to_set().insert(k@),
{
    let ghost s0 = byte_seqs(v@);
    let mut i: usize = 0;
    let mut stop = false;
    while i < v.len() && !stop
        invariant
            i <= v.len(),
            v@ == old(v)@,
            s0 == byte_seqs(v@),
            lex_sorted(s0),
            forall|j: int| 0 <= j < i ==> lex_lt(#[trigger] s0[j], k@),
            stop ==> i < v.len() && lex_lt(k@, s0[i as int]),
        decreases v.len() - i, if stop { 0int } else { 1int },
    {
        let c = compare_bytes(v[i].as_slice(), k.as_slice());
        assert(s0[i as int] == v@[i as int]@);
        if c == Comparison::Equal {
            assert(s0.to_set().insert(k@) =~= s0.to_set());
            return;
        } else if c == Comparison::Greater {
            stop = true;
        } else {
            i = i + 1;
        }
    }
    let ghost at = i;
    proof {
        if at < s0.len() {
            assert(s0[at as int] == v@[at as int]@);
        }
    }
    v.insert(i, k);
    proof {
        let s1 = byte_seqs(v@);
        assert(s1 =~= s0.take(at as int).push(k@) + s0.skip(at as int));
        assert forall|a: int, b: int| 0 <= a < b < s1.len() implies lex_lt(#[trigger] s1[a], #[trigger] s1[b]) by {
            if b < at {
                assert(s1[a] == s0[a] && s1[b] == s0[b]);
            } else if b == at {
                assert(s1[a] == s0[a]);
            } else if a == at {
                assert(s1[b] == s0[b - 1]);
                assert(stop);
                if b - 1 > at {
                    assert(lex_lt(s0[at as int], s0[b - 1]));
                    lemma_lex_lt_transitive(k@, s0[at as int], s0[b - 1]);
                }
            } else if a < at {
                assert(s1[a] == s0[a] && s1[b] == s0[b - 1]);
            } else {
                assert(s1[a] == s0[a - 1] && s1[b] == s0[b - 1]);
            }
        }
        assert forall|x: Seq<u8>| s1.to_set().contains(x) <==> s0.to_set().insert(k@).contains(x) by {
            if s0.to_set().contains(x) && x != k@ {
                let j = choose|j: int| 0 <= j < s0.len() && s0[j] == x;
                if j < at {
                    assert(s1[j] == x);
                } else {
                    assert(s1[j + 1] == x);
                }
            }
            if x == k@ {
                assert(s1[at as int] == x);
            }
            if s1.to_set().contains(x) {
                let j = choose|j: int| 0 <= j < s1.len() && s1[j] == x;
                if j < at {
                    assert(s0[j] == x);
                } else if j > at {
                    assert(s0[j - 1] == x);
                }
            }
        }
        assert(s1.to_set() =~= s0.to_set().insert(k@));
    }
}

/// Removes `k` from a sorted vector, keeping it sorted.
pub fn remove_sorted(v: &mut Vec<Vec<u8>>, k: &[u8])
    requires
        lex_sorted(byte_seqs(old(v)@)),
    ensures
        lex_sorted(byte_seqs(final(v)@)),
        byte_seqs(final(v)@).to_set() == byte_seqs(old(v)@).to_set().remove(k@),
{
    let ghost s0 = byte_seqs(v@);
    let mut i: usize = 0;
    while i < v.len()
        invariant
            i <= v.len(),
            v@ == old(v)@,
            s0 == byte_seqs(v@),
            lex_sorted(s0),
            forall|j: int| 0 <= j < i ==> s0[j] != k@,
        decreases v.len() - i,
    {
        if bytes_equal(v[i].as_slice(), k) {
            let ghost at = i as int;
            v.remove(i);
            proof {
                let s1 = byte_seqs(v@);
                assert(s1 =~= s0.take(at) + s0.skip(at + 1));
                assert forall|a: int, b: int| 0 <= a < b < s1.len() implies lex_lt(#[trigger] s1[a], #[trigger] s1[b]) by {
                    if b < at {
                        assert(s1[a] == s0[a] && s1[b] == s0[b]);
                    } else if a < at {
                        assert(s1[a] == s0[a] && s1[b] == s0[b + 1]);
                    } else {
                        assert(s1[a] == s0[a + 1] && s1[b] == s0[b + 1]);
                    }
                }
                assert forall|x: Seq<u8>| s1.to_set().contains(x) <==> s0.to_set().remove(k@).contains(x) by {
                    if s1.to_set().contains(x) {
                        let j = choose|j: int| 0 <= j < s1.len() && s1[j] == x;
                        if j < at {
                            assert(s0[j] == x);
                            assert(lex_lt(s0[j], s0[at]));
                            lemma_lex_lt_irreflexive(s0[j], s0[at]);
                        } else {
                            assert(s0[j + 1] == x);
                            assert(lex_lt(s0[at], s0[j + 1]));
                            lemma_lex_lt_irreflexive(s0[at], s0[j + 1]);
                        }
                    }
                    if s0.to_set().remove(k@).contains(x) {
                        let j = choose|j: int| 0 <= j < s0.len() && s0[j] == x;
                        if j < at {
                            assert(s1[j] == x);
                        } else {
                            assert(j != at);
                            assert(s1[j - 1] == x);
                        }
                    }
                }
                assert(s1.to_set() =~= s0.to_set().remove(k@));
            }
            return;
        }
        i = i + 1;
    }
    assert(s0.to_set().remove(k@) =~= s0.to_set());
}

/// A strictly sorted sequence is determined by the set of its elements.
pub proof fn lemma_sorted_unique(a: Seq<Seq<u8>>, b: Seq<Seq<u8>>)
    requires
        lex_sorted(a),
        lex_sorted(b),
        a.to_set() == b.to_set(),
    ensures
        a == b,
    decreases a.len(),
{
    if a.len() == 0 {
        if b.len() > 0 {
            assert(b.to_set().contains(b[0]));
        }
        assert(a =~= b);
    } else {
        assert(a.to_set().contains(a[0]));
        assert(b.len() > 0);
        assert(b.to_set().contains(b[0]));
        let ib = choose|j: int| 0 <= j < b.len() && b[j] == a[0];
        let ia = choose|j: int| 0 <= j < a.len() && a[j] == b[0];
        if ia > 0 {
            assert(lex_lt(a[0], a[ia]));
            if ib > 0 {
                assert(lex_lt(b[0], b[ib]));
                lemma_lex_lt_irreflexive(a[0], b[0]);
            } else {
                lemma_lex_lt_irreflexive(a[0], a[ia]);
            }
        }
        assert(a[0] == b[0]);
        let a1 = a.skip(1);
        let b1 = b.skip(1);
        assert forall|x: Seq<u8>| a1.to_set().contains(x) <==> b1.to_set().contains(x) by {
            if a1.to_set().contains(x) {
                let j = choose|j: int| 0 <= j < a1.len() && a1[j] == x;
                assert(a[j + 1] == x);
                assert(lex_lt(a[0], x));
                lemma_lex_lt_irreflexive(a[0], x);
                assert(b.to_set().contains(x));
                let m = choose|m: int| 0 <= m < b.len() && b[m] == x;
                assert(m != 0);
                assert(b1[m - 1] == x);
            }
            if b1.to_set().contains(x) {
                let j = choose|j: int| 0 <= j < b1.len() && b1[j] == x;
                assert(b[j + 1] == x);
                assert(lex_lt(b[0], x));
                lemma_lex_lt_irreflexive(b[0], x);
                assert(a.to_set().contains(x));
                let m = choose|m: int| 0 <= m < a.len() && a[m] == x;
                assert(m != 0);
                assert(a1[m - 1] == x);
            }
        }
        assert(a1.to_set() =~= b1.to_set());
        assert(lex_sorted(a1)) by {
            assert forall|i: int, j: int| 0 <= i < j < a1.len() implies lex_lt(#[trigger] a1[i], #[trigger] a1[j]) by {
                assert(a1[i] == a[i + 1] && a1[j] == a[j + 1]);
            }
        }
        assert(lex_sorted(b1)) by {
            assert forall|i: int, j: int| 0 <= i < j < b1.len() implies lex_lt(#[trigger] b1[i], #[trigger] b1[j]) by {
                assert(b1[i] == b[i + 1] && b1[j] == b[j + 1]);
            }
        }
        lemma_sorted_unique(a1, b1);
        assert(a =~= seq![a[0]] + a1);
        assert(b =~= seq![b[0]] + b1);
    }
}

} // verus!
