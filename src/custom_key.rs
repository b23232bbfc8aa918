//! Order-preserving byte encodings of keys, and the price keys of an order book.

use vstd::prelude::*;
use crate::order::{lemma_lex_lt_irreflexive, lex_lt, lex_split};

verus! {

/// Why a stored key could not be read back.
#[derive(Debug, Clone, Copy, PartialEq, Eq, Structural)]
pub enum ViewError {
    /// The bytes do not encode a key of the expected type.
    Deserialization,
}

/// The largest `u64`.
pub const PRICE_MAX: u64 = 0xffff_ffff_ffff_ffff;

/// 256 to the power `n`.
pub open spec fn pow256(n: nat) -> nat
    decreases n,
{
    if n == 0 { 1 } else { 256 * pow256((n - 1) as nat) }
}

/// The `count` low bytes of `n`, most significant first.
pub open spec fn be_bytes(n: nat, count: nat) -> Seq<u8>
    decreases count,
{
    if count == 0 {
        Seq::empty()
    } else {
        be_bytes(n / 256, (count - 1) as nat).push((n % 256) as u8)
    }
}

/// The value of bytes read most significant first.
pub open spec fn be_value(s: Seq<u8>) -> nat
    decreases s.len(),
{
    if s.len() == 0 { 0 } else { (be_value(s.drop_last()) * 256 + s.last()) as nat }
}

pub proof fn lemma_be_len(n: nat, count: nat)
    ensures
        be_bytes(n, count).len() == count,
    decreases count,
{
    if count > 0 {
        lemma_be_len(n / 256, (count - 1) as nat);
    }
}

/// Reading back the bytes gives the number, where it fits.
pub proof fn lemma_be_roundtrip(n: nat, count: nat)
    requires
        n < pow256(count),
    ensures
        be_value(be_bytes(n, count)) == n,
    decreases count,
{
    if count > 0 {
        lemma_be_len(n / 256, (count - 1) as nat);
        assert(n / 256 < pow256((count - 1) as nat)) by (nonlinear_arith)
            requires n < 256 * pow256((count - 1) as nat);
        lemma_be_roundtrip(n / 256, (count - 1) as nat);
        let b = be_bytes(n, count);
        assert(b.drop_last() =~= be_bytes(n / 256, (count - 1) as nat));
    }
}

/// Encoding the value of bytes gives the bytes back.
pub proof fn lemma_be_value_roundtrip(s: Seq<u8>)
    ensures
        be_bytes(be_value(s), s.len()) == s,
        be_value(s) < pow256(s.len()),
    decreases s.len(),
{
    if s.len() > 0 {
        let d = s.drop_last();
        lemma_be_value_roundtrip(d);
        let v = be_value(s);
        assert(v / 256 == be_value(d) && v % 256 == s.last()) by (nonlinear_arith)
            requires v == be_value(d) * 256 + s.last(), 0 <= s.last() < 256;
        assert(be_bytes(v, s.len()) =~= s);
        assert(v < pow256(s.len())) by (nonlinear_arith)
            requires v == be_value(d) * 256 + s.last(), be_value(d) < pow256(d.len()), s.last() < 256,
                pow256(s.len()) == 256 * pow256(d.len());
    }
}

/// Comparing two strings of one length that end in one more byte.
proof fn lemma_lex_push(x: Seq<u8>, y: Seq<u8>, u: u8, v: u8)
    requires
        x.len() == y.len(),
    ensures
        lex_lt(x.push(u), y.push(v)) <==> (lex_lt(x, y) || (x == y && u < v)),
{
    let a = x.push(u);
    let b = y.push(v);
    if lex_lt(a, b) {
        let i = choose|i: int| lex_split(a, b, i);
        assert forall|j: int| 0 <= j < i && j < x.len() implies x[j] == y[j] by {
            assert(a[j] == x[j] && b[j] == y[j]);
        }
        if i < x.len() {
            assert(a[i] == x[i] && b[i] == y[i]);
            assert(lex_split(x, y, i));
        } else {
            assert(x =~= y);
        }
    }
    if lex_lt(x, y) {
        let i = choose|i: int| lex_split(x, y, i);
        assert(lex_split(a, b, i));
    }
    if x == y && u < v {
        assert(lex_split(a, b, x.len() as int));
    }
}

/// Big-endian encoding of one length orders as the numbers do.
pub proof fn lemma_be_monotone(a: nat, b: nat, count: nat)
    requires
        a < pow256(count),
        b < pow256(count),
    ensures
        lex_lt(be_bytes(a, count), be_bytes(b, count)) <==> a < b,
    decreases count,
{
    if count == 0 {
        assert(lex_lt(Seq::<u8>::empty(), Seq::<u8>::empty()) ==> false) by {
            if lex_lt(Seq::<u8>::empty(), Seq::<u8>::empty()) {
                lemma_lex_lt_irreflexive(Seq::<u8>::empty(), Seq::<u8>::empty());
            }
        }
    } else {
        let c = (count - 1) as nat;
        assert(a / 256 < pow256(c) && b / 256 < pow256(c)) by (nonlinear_arith)
            requires a < 256 * pow256(c), b < 256 * pow256(c);
        lemma_be_monotone(a / 256, b / 256, c);
        lemma_be_len(a / 256, c);
        lemma_be_len(b / 256, c);
        lemma_lex_push(be_bytes(a / 256, c), be_bytes(b / 256, c), (a % 256) as u8, (b % 256) as u8);
        if be_bytes(a / 256, c) == be_bytes(b / 256, c) {
            lemma_be_roundtrip(a / 256, c);
            lemma_be_roundtrip(b / 256, c);
        }
        assert(a < b <==> (a / 256 < b / 256 || (a / 256 == b / 256 && a % 256 < b % 256))) by (nonlinear_arith);
    }
}

pub proof fn lemma_pow256_8()
    ensures
        pow256(8) == 0x1_0000_0000_0000_0000,
{
    reveal_with_fuel(pow256, 9);
}

/// The 8-byte big-endian encoding of `n`.
pub fn be_u64(n: u64) -> (r: Vec<u8>)
    ensures
        r@ == be_bytes(n as nat, 8),
{
    let mut r: Vec<u8> = Vec::new();
    let mut cur: u64 = n;
    let mut i: usize = 0;
    while i < 8
        invariant
            i <= 8,
            be_bytes(cur as nat, (8 - i) as nat) + r@ == be_bytes(n as nat, 8),
        decreases 8 - i,
    {
        let ghost prev = r@;
        r.insert(0, (cur % 256) as u8);
        proof {
            assert(be_bytes(cur as nat, (8 - i) as nat) == be_bytes(cur as nat / 256, (8 - i - 1) as nat).push((cur as nat % 256) as u8));
            assert(be_bytes((cur / 256) as nat, (8 - i - 1) as nat) + r@ =~= be_bytes(cur as nat, (8 - i) as nat) + prev);
        }
        cur = cur / 256;
        i = i + 1;
    }
    assert(be_bytes(cur as nat, 0) + r@ =~= r@);
    r
}

/// The number that 8 big-endian bytes encode.
pub fn from_be_u64(s: &[u8]) -> (r: u64)
    requires
        s@.len() == 8,
    ensures
        r == be_value(s@),
{
    proof {
        lemma_be_value_roundtrip(s@);
        lemma_pow256_8();
    }
    let mut acc: u64 = 0;
    let mut i: usize = 0;
    while i < 8
        invariant
            i <= 8,
            s@.len() == 8,
            acc == be_value(s@.take(i as int)),
            be_value(s@.take(i as int)) < pow256(i as nat),
        decreases 8 - i,
    {
        proof {
            assert(s@.take(i + 1).drop_last() =~= s@.take(i as int));
            lemma_pow256_le(i as nat + 1, 8);
            lemma_pow256_8();
            let t = s@.take(i + 1);
            lemma_be_value_roundtrip(t);
        }
        acc = acc * 256 + s[i] as u64;
        i = i + 1;
    }
    assert(s@.take(8) =~= s@);
    acc
}

proof fn lemma_pow256_le(a: nat, b: nat)
    requires
        a <= b,
    ensures
        pow256(a) <= pow256(b),
    decreases b - a,
{
    if a < b {
        lemma_pow256_le(a, (b - 1) as nat);
    }
}

proof fn lemma_le_is_reversed_be(n: nat, count: nat)
    ensures
        crate::collection_view::le_bytes(n, count) == be_bytes(n, count).reverse(),
    decreases count,
{
    if count > 0 {
        lemma_le_is_reversed_be(n / 256, (count - 1) as nat);
        let b = be_bytes(n / 256, (count - 1) as nat);
        assert(b.push((n % 256) as u8).reverse() =~= seq![(n % 256) as u8] + b.reverse());
    }
}

/// Bytes read least significant first are the reversal of those read most significant first.
pub proof fn lemma_le_from_reversed(s: Seq<u8>, rev: Seq<u8>)
    requires
        s.len() == 8,
        rev == s.reverse(),
    ensures
        crate::collection_view::le_bytes(be_value(rev), 8) == s,
{
    lemma_be_value_roundtrip(rev);
    lemma_le_is_reversed_be(be_value(rev), 8);
    assert(rev.reverse() =~= s);
}

/// A key type whose byte encoding orders as the keys do.
pub trait CustomSerialize: Sized {
    /// The encoding of the key.
    spec fn custom_bytes(&self) -> Seq<u8>;

    /// The encoding.
    fn to_custom_bytes(&self) -> (r: Vec<u8>)
        ensures
            r@ == self.custom_bytes();

    /// Whether `short_key` encodes a key.
    spec fn is_encoding(short_key: Seq<u8>) -> bool;

    /// The key that `short_key` encodes, or an error where it encodes none.
    fn from_custom_bytes(short_key: &[u8]) -> (r: Result<Self, ViewError>)
        ensures
            r is Ok <==> Self::is_encoding(short_key@),
            r matches Ok(k) ==> k.custom_bytes() == short_key@;
}

/// An asking price: ascending prices give ascending keys, so the best (lowest) ask comes first.
#[derive(Debug, Clone, Copy, PartialEq, Eq, Structural)]
pub struct PriceAsk {
    pub price: u64,
}

/// A bidding price: ascending prices give descending keys, so the best (highest) bid comes
/// first.
#[derive(Debug, Clone, Copy, PartialEq, Eq, Structural)]
pub struct PriceBid {
    pub price: u64,
}

impl CustomSerialize for PriceAsk {
    open spec fn custom_bytes(&self) -> Seq<u8> {
        be_bytes(self.price as nat, 8)
    }

    open spec fn is_encoding(short_key: Seq<u8>) -> bool {
        short_key.len() == 8
    }

    fn to_custom_bytes(&self) -> (r: Vec<u8>) {
        be_u64(self.price)
    }

    fn from_custom_bytes(short_key: &[u8]) -> (r: Result<PriceAsk, ViewError>) {
        if short_key.len() != 8 {
            return Err(ViewError::Deserialization);
        }
        let price = from_be_u64(short_key);
        proof {
            lemma_be_value_roundtrip(short_key@);
        }
        Ok(PriceAsk { price })
    }
}

impl CustomSerialize for PriceBid {
    open spec fn custom_bytes(&self) -> Seq<u8> {
        be_bytes((PRICE_MAX - self.price) as nat, 8)
    }

    open spec fn is_encoding(short_key: Seq<u8>) -> bool {
        short_key.len() == 8
    }

    fn to_custom_bytes(&self) -> (r: Vec<u8>) {
        be_u64(PRICE_MAX - self.price)
    }

    fn from_custom_bytes(short_key: &[u8]) -> (r: Result<PriceBid, ViewError>) {
        if short_key.len() != 8 {
            return Err(ViewError::Deserialization);
        }
        let rev = from_be_u64(short_key);
        proof {
            lemma_be_value_roundtrip(short_key@);
            lemma_pow256_8();
        }
        Ok(PriceBid { price: PRICE_MAX - rev })
    }
}

/// The encoding of asking prices is strictly monotone: `a` encodes before `b` exactly when its
/// price is lower.
pub proof fn lemma_ask_order(a: PriceAsk, b: PriceAsk)
    ensures
        lex_lt(a.custom_bytes(), b.custom_bytes()) <==> a.price < b.price,
{
    lemma_pow256_8();
    lemma_be_monotone(a.price as nat, b.price as nat, 8);
}

/// The encoding of bidding prices is strictly antitone: `a` encodes before `b` exactly when its
/// price is higher.
pub proof fn lemma_bid_order(a: PriceBid, b: PriceBid)
    ensures
        lex_lt(a.custom_bytes(), b.custom_bytes()) <==> a.price > b.price,
{
    lemma_pow256_8();
    lemma_be_monotone((PRICE_MAX - a.price) as nat, (PRICE_MAX - b.price) as nat, 8);
}

/// Decoding an encoded price gives the price back.
pub proof fn lemma_price_roundtrip(a: PriceAsk, b: PriceBid)
    ensures
        be_value(a.custom_bytes()) == a.price,
        PRICE_MAX - be_value(b.custom_bytes()) == b.price,
{
    lemma_pow256_8();
    lemma_be_roundtrip(a.price as nat, 8);
    lemma_be_roundtrip((PRICE_MAX - b.price) as nat, 8);
}

/// Asking prices listed in the order of their encodings are in ascending order of price.
pub proof fn lemma_asks_ascending(s: Seq<PriceAsk>)
    requires
        crate::order::lex_sorted(s.map_values(|p: PriceAsk| p.custom_bytes())),
    ensures
        forall|i: int, j: int| 0 <= i < j < s.len() ==> (#[trigger] s[i]).price < (#[trigger] s[j]).price,
{
    assert forall|i: int, j: int| 0 <= i < j < s.len() implies (#[trigger] s[i]).price < (#[trigger] s[j]).price by {
        let m = s.map_values(|p: PriceAsk| p.custom_bytes());
        assert(lex_lt(m[i], m[j]));
        lemma_ask_order(s[i], s[j]);
    }
}

/// Bidding prices listed in the order of their encodings are in descending order of price.
pub proof fn lemma_bids_descending(s: Seq<PriceBid>)
    requires
        crate::order::lex_sorted(s.map_values(|p: PriceBid| p.custom_bytes())),
    ensures
        forall|i: int, j: int| 0 <= i < j < s.len() ==> (#[trigger] s[i]).price > (#[trigger] s[j]).price,
{
    assert forall|i: int, j: int| 0 <= i < j < s.len() implies (#[trigger] s[i]).price > (#[trigger] s[j]).price by {
        let m = s.map_values(|p: PriceBid| p.custom_bytes());
        assert(lex_lt(m[i], m[j]));
        lemma_bid_order(s[i], s[j]);
    }
}

} // verus!
