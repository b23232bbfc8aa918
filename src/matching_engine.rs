//! An order book between two tokens: bids buy token 1 with token 0, asks sell it. Inserting
//! an order first uncrosses the book against the opposite side, best price first, and rests
//! what is left.

use vstd::prelude::*;
use crate::data_types::{Amount, ArithmeticError, U128_MAX};
use crate::custom_key::{
    be_bytes, be_u64, be_value, from_be_u64, lemma_be_len, lemma_be_roundtrip, lemma_be_value_roundtrip,
    lemma_pow256_8, PriceAsk, PriceBid,
};

verus! {

/// The identifier of an order.
pub type OrderId = u64;

/// Who owns an account: a user or an application, each by its identifier.
#[derive(Debug, Clone, Copy, PartialEq, Eq, Structural)]
pub enum AccountOwner {
    User(u64),
    Application(u64),
}

/// The side of an order.
#[derive(Debug, Clone, Copy, PartialEq, Eq, Structural)]
pub enum OrderNature {
    /// Buys token 1, paying in token 0.
    Bid,
    /// Sells token 1, paid in token 0.
    Ask,
}

/// The price of one unit of token 1 in units of token 0.
#[derive(Debug, Clone, Copy, PartialEq, Eq, Structural)]
pub struct Price {
    pub price: u64,
}

impl Price {
    /// The price as a bid key.
    pub fn to_bid(&self) -> (r: PriceBid)
        ensures
            r.price == self.price,
    {
        PriceBid { price: self.price }
    }

    /// The price as an ask key.
    pub fn to_ask(&self) -> (r: PriceAsk)
        ensures
            r.price == self.price,
    {
        PriceAsk { price: self.price }
    }
}

impl PriceAsk {
    /// The price of the key.
    pub fn to_price(&self) -> (r: Price)
        ensures
            r.price == self.price,
    {
        Price { price: self.price }
    }
}

impl PriceBid {
    /// The price of the key.
    pub fn to_price(&self) -> (r: Price)
        ensures
            r.price == self.price,
    {
        Price { price: self.price }
    }
}

/// An order resting in a level.
#[derive(Debug, Clone, Copy, PartialEq, Eq, Structural)]
pub struct OrderEntry {
    pub amount: Amount,
    pub owner: AccountOwner,
    pub order_id: OrderId,
}

/// Where a resting order is: its price, side and owner.
#[derive(Debug, Clone, Copy, PartialEq, Eq, Structural)]
pub struct KeyBook {
    pub price: Price,
    pub nature: OrderNature,
    pub owner: AccountOwner,
}

/// A payment out of the engine's custody.
#[derive(Debug, Clone, Copy, PartialEq, Eq, Structural)]
pub struct Transfer {
    /// The beneficiary.
    pub owner: AccountOwner,
    /// The amount paid.
    pub amount: Amount,
    /// The token paid: 0 or 1.
    pub token_idx: u32,
}

/// How much of an order to cancel.
#[derive(Debug, Clone, Copy, PartialEq, Eq, Structural)]
pub enum ModifyAmount {
    All,
    Partial(Amount),
}

/// An operation on the book.
#[derive(Debug, Clone, Copy, PartialEq, Eq, Structural)]
pub enum Order {
    Insert { owner: AccountOwner, amount: Amount, nature: OrderNature, price: Price },
    Cancel { owner: AccountOwner, order_id: OrderId },
    Modify { owner: AccountOwner, order_id: OrderId, cancel_amount: Amount },
}

/// Why an operation on the book failed.
#[derive(Debug, Clone, Copy, PartialEq, Eq, Structural)]
pub enum MatchingEngineError {
    OrderNotPresent,
    WrongOwnerOfOrder,
    TooLargeModifyOrder,
    IncorrectAuthentication,
    Overflow,
    MatchingEngineChainOnly,
}

/// `price * count`, where it fits.
pub open spec fn product(price: u64, count: Amount) -> Option<Amount> {
    if count.0 * price <= U128_MAX { Some(Amount((count.0 * price) as u128)) } else { None }
}

/// The amount of token 0 that `count` units of token 1 cost at `price`.
pub fn product_price_amount(price: Price, count: Amount) -> (r: Result<Amount, MatchingEngineError>)
    ensures
        product(price.price, count) matches Some(a) ==> r == Ok::<Amount, MatchingEngineError>(a),
        product(price.price, count) is None ==> r == Err::<Amount, MatchingEngineError>(MatchingEngineError::Overflow),
{
    match count.try_mul(price.price as u128) {
        Ok(a) => Ok(a),
        Err(_) => Err(MatchingEngineError::Overflow),
    }
}

/// The owner named in an order.
pub open spec fn order_owner(order: Order) -> AccountOwner {
    match order {
        Order::Insert { owner, .. } => owner,
        Order::Cancel { owner, .. } => owner,
        Order::Modify { owner, .. } => owner,
    }
}

/// The owner named in an order.
pub fn get_owner(order: &Order) -> (r: AccountOwner)
    ensures
        r == order_owner(*order),
{
    match order {
        Order::Insert { owner, .. } => *owner,
        Order::Cancel { owner, .. } => *owner,
        Order::Modify { owner, .. } => *owner,
    }
}

/// The caller may act for `owner`: the signer is the user, or the calling application is it.
pub open spec fn authenticated(application: Option<u64>, signer: Option<u64>, owner: AccountOwner) -> bool {
    match owner {
        AccountOwner::User(a) => signer == Some(a),
        AccountOwner::Application(id) => application == Some(id),
    }
}

/// Checks that the caller may act for `owner`.
pub fn check_account_authentication(
    authenticated_application_id: Option<u64>,
    authenticated_signer: Option<u64>,
    owner: AccountOwner,
) -> (r: Result<(), MatchingEngineError>)
    ensures
        r is Ok <==> authenticated(authenticated_application_id, authenticated_signer, owner),
        r is Err ==> r == Err::<(), MatchingEngineError>(MatchingEngineError::IncorrectAuthentication),
{
    match owner {
        AccountOwner::User(address) => {
            if authenticated_signer == Some(address) {
                return Ok(());
            }
        },
        AccountOwner::Application(id) => {
            if authenticated_application_id == Some(id) {
                return Ok(());
            }
        },
    }
    Err(MatchingEngineError::IncorrectAuthentication)
}

/// The collateral that an inserted order puts forward: for a bid `price * amount` of token 0,
/// for an ask `amount` of token 1.
pub fn get_amount_idx(nature: OrderNature, price: Price, amount: Amount) -> (r: Result<(Amount, u32), MatchingEngineError>)
    ensures
        nature == OrderNature::Ask ==> r == Ok::<(Amount, u32), MatchingEngineError>((amount, 1u32)),
        nature == OrderNature::Bid && product(price.price, amount) is Some
            ==> r == Ok::<(Amount, u32), MatchingEngineError>((product(price.price, amount)->0, 0u32)),
        nature == OrderNature::Bid && product(price.price, amount) is None
            ==> r == Err::<(Amount, u32), MatchingEngineError>(MatchingEngineError::Overflow),
{
    match nature {
        OrderNature::Bid => {
            let size0 = product_price_amount(price, amount)?;
            Ok((size0, 0))
        },
        OrderNature::Ask => Ok((amount, 1)),
    }
}

/// The payments for `fill` units traded between an incoming order of `owner` at `price_insert`
/// and a resting order of `resting` at `price_level`. The resting order keeps any price
/// improvement: an incoming bid pays its own price to the seller; an incoming ask is paid its
/// own price and the resting buyer gets back the difference.
pub open spec fn fill_transfers(
    nature: OrderNature,
    fill: Amount,
    owner: AccountOwner,
    resting: AccountOwner,
    price_level: u64,
    price_insert: u64,
) -> Option<Seq<Transfer>> {
    match nature {
        OrderNature::Bid => match product(price_insert, fill) {
            Some(fill0) => Some(seq![
                Transfer { owner, amount: fill, token_idx: 1 },
                Transfer { owner: resting, amount: fill0, token_idx: 0 },
            ]),
            None => None,
        },
        OrderNature::Ask => match product(price_insert, fill) {
            Some(fill0) => {
                let base = seq![
                    Transfer { owner: resting, amount: fill, token_idx: 1 },
                    Transfer { owner, amount: fill0, token_idx: 0 },
                ];
                if price_level == price_insert {
                    Some(base)
                } else {
                    match product((price_level - price_insert) as u64, fill) {
                        Some(extra) => Some(base.push(Transfer { owner: resting, amount: extra, token_idx: 0 })),
                        None => None,
                    }
                }
            },
            None => None,
        },
    }
}

/// The payments for one fill; see `fill_transfers`.
pub fn get_transfers(
    nature: OrderNature,
    fill: Amount,
    owner: AccountOwner,
    order_level: &OrderEntry,
    price_level: Price,
    price_insert: Price,
) -> (r: Result<Vec<Transfer>, MatchingEngineError>)
    requires
        nature == OrderNature::Bid ==> price_insert.price >= price_level.price,
        nature == OrderNature::Ask ==> price_insert.price <= price_level.price,
    ensures
        fill_transfers(nature, fill, owner, order_level.owner, price_level.price, price_insert.price) matches Some(t)
            ==> r is Ok && r->Ok_0@ == t,
        fill_transfers(nature, fill, owner, order_level.owner, price_level.price, price_insert.price) is None
            ==> r == Err::<Vec<Transfer>, MatchingEngineError>(MatchingEngineError::Overflow),
{
    let mut transfers: Vec<Transfer> = Vec::new();
    match nature {
        OrderNature::Bid => {
            let fill0 = product_price_amount(price_insert, fill)?;
            transfers.push(Transfer { owner, amount: fill, token_idx: 1 });
            transfers.push(Transfer { owner: order_level.owner, amount: fill0, token_idx: 0 });
        },
        OrderNature::Ask => {
            let fill0 = product_price_amount(price_insert, fill)?;
            transfers.push(Transfer { owner: order_level.owner, amount: fill, token_idx: 1 });
            transfers.push(Transfer { owner, amount: fill0, token_idx: 0 });
            if price_level.price != price_insert.price {
                let price_diff = Price { price: price_level.price - price_insert.price };
                let extra = product_price_amount(price_diff, fill)?;
                transfers.push(Transfer { owner: order_level.owner, amount: extra, token_idx: 0 });
            }
        },
    }
    assert(transfers@ =~= fill_transfers(nature, fill, owner, order_level.owner, price_level.price, price_insert.price)->0);
    Ok(transfers)
}

/// How many orders at the front of the level have amount zero.
pub open spec fn zero_prefix_len(level: Seq<OrderEntry>) -> nat
    decreases level.len(),
{
    if level.len() > 0 && level[0].amount.0 == 0 { 1 + zero_prefix_len(level.skip(1)) } else { 0 }
}

proof fn lemma_zero_prefix(level: Seq<OrderEntry>)
    ensures
        zero_prefix_len(level) <= level.len(),
        forall|i: int| 0 <= i < zero_prefix_len(level) ==> (#[trigger] level[i]).amount.0 == 0,
        zero_prefix_len(level) < level.len() ==> level[zero_prefix_len(level) as int].amount.0 != 0,
    decreases level.len(),
{
    if level.len() > 0 && level[0].amount.0 == 0 {
        lemma_zero_prefix(level.skip(1));
        assert forall|i: int| 0 <= i < zero_prefix_len(level) implies (#[trigger] level[i]).amount.0 == 0 by {
            if i > 0 {
                assert(level[i] == level.skip(1)[i - 1]);
            }
        }
    }
}

/// Removes the orders of amount zero at the front of the level; a zero order behind a non-zero
/// one stays until it reaches the front.
pub fn remove_zero_orders_from_level(level: &mut Vec<OrderEntry>)
    ensures
        final(level)@ == old(level)@.skip(zero_prefix_len(old(level)@) as int),
{
    proof { lemma_zero_prefix(level@); }
    let mut n: usize = 0;
    while n < level.len() && level[n].amount.0 == 0
        invariant
            n <= level.len(),
            level@ == old(level)@,
            zero_prefix_len(level@) <= level.len(),
            forall|i: int| 0 <= i < zero_prefix_len(level@) ==> (#[trigger] level@[i]).amount.0 == 0,
            zero_prefix_len(level@) < level.len() ==> level@[zero_prefix_len(level@) as int].amount.0 != 0,
            n <= zero_prefix_len(level@),
        decreases level.len() - n,
    {
        n = n + 1;
    }
    let ghost full = level@;
    let mut rest: Vec<OrderEntry> = Vec::new();
    let mut i: usize = n;
    while i < level.len()
        invariant
            n <= i <= level.len(),
            level@ == full,
            rest@ == full.subrange(n as int, i as int),
        decreases level.len() - i,
    {
        rest.push(level[i]);
        i = i + 1;
        assert(rest@ =~= full.subrange(n as int, i as int));
    }
    assert(full.subrange(n as int, full.len() as int) =~= full.skip(n as int));
    *level = rest;
}

/// The state of clearing a level against an incoming order, after some of its orders.
pub struct Clearing {
    pub level: Seq<OrderEntry>,
    pub amount: nat,
    pub removed: Seq<(AccountOwner, OrderId)>,
    pub transfers: Seq<Transfer>,
    pub done: bool,
    pub failed: bool,
}

/// The smaller of two naturals.
pub open spec fn min_nat(a: nat, b: nat) -> nat {
    if a <= b { a } else { b }
}

/// Clearing the `k`-th order: fill it as far as the incoming amount goes, pay for the fill,
/// note the order if it is used up, and stop once the incoming amount is used up.
pub open spec fn clearing_step(st: Clearing, k: int, nature: OrderNature, owner: AccountOwner, price_level: u64, price_insert: u64) -> Clearing {
    if st.done || st.failed {
        st
    } else {
        let order = st.level[k];
        let fill = min_nat(order.amount.0 as nat, st.amount);
        let left = (order.amount.0 - fill) as u128;
        let t = fill_transfers(nature, Amount(fill as u128), owner, order.owner, price_level, price_insert);
        if fill > 0 && t is None {
            Clearing { failed: true, ..st }
        } else {
            let level = st.level.update(k, OrderEntry { amount: Amount(left), ..order });
            let amount = (st.amount - fill) as nat;
            Clearing {
                level,
                amount,
                removed: if left == 0 { st.removed.push((order.owner, order.order_id)) } else { st.removed },
                transfers: if fill > 0 { st.transfers + t->0 } else { st.transfers },
                done: amount == 0,
                failed: false,
            }
        }
    }
}

/// The state after clearing the first `n` orders of `level`.
pub open spec fn clearing(level: Seq<OrderEntry>, n: nat, amount: nat, transfers: Seq<Transfer>, nature: OrderNature, owner: AccountOwner, price_level: u64, price_insert: u64) -> Clearing
    decreases n,
{
    if n == 0 {
        Clearing { level, amount, removed: Seq::empty(), transfers, done: amount == 0, failed: false }
    } else {
        clearing_step(clearing(level, (n - 1) as nat, amount, transfers, nature, owner, price_level, price_insert), n - 1, nature, owner, price_level, price_insert)
    }
}

proof fn lemma_clearing_shape(level: Seq<OrderEntry>, n: nat, amount: nat, transfers: Seq<Transfer>, nature: OrderNature, owner: AccountOwner, pl: u64, pi: u64)
    requires
        n <= level.len(),
    ensures
        clearing(level, n, amount, transfers, nature, owner, pl, pi).level.len() == level.len(),
        clearing(level, n, amount, transfers, nature, owner, pl, pi).amount <= amount,
    decreases n,
{
    if n > 0 {
        lemma_clearing_shape(level, (n - 1) as nat, amount, transfers, nature, owner, pl, pi);
    }
}

/// Clears a level, oldest order first, against an incoming order of `owner` for `*amount`
/// units; see `clearing`. The incoming amount is decreased by what was filled, the payments are
/// appended to `transfers`, the orders used up are returned, and the zero orders at the front of
/// the level are removed.
pub fn level_clearing(
    level: &mut Vec<OrderEntry>,
    owner: AccountOwner,
    amount: &mut Amount,
    transfers: &mut Vec<Transfer>,
    nature: OrderNature,
    price_level: Price,
    price_insert: Price,
) -> (r: Result<Vec<(AccountOwner, OrderId)>, MatchingEngineError>)
    requires
        nature == OrderNature::Bid ==> price_insert.price >= price_level.price,
        nature == OrderNature::Ask ==> price_insert.price <= price_level.price,
    ensures
        ({
            let c = clearing(old(level)@, old(level)@.len(), old(amount).0 as nat, old(transfers)@, nature, owner,
                price_level.price, price_insert.price);
            &&& c.failed ==> r == Err::<Vec<(AccountOwner, OrderId)>, MatchingEngineError>(MatchingEngineError::Overflow)
            &&& !c.failed ==> r is Ok && r->Ok_0@ == c.removed && final(amount).0 == c.amount
                && final(transfers)@ == c.transfers
                && final(level)@ == c.level.skip(zero_prefix_len(c.level) as int)
        }),
{
    let ghost l0 = level@;
    let ghost a0 = amount.0 as nat;
    let ghost t0 = transfers@;
    let mut removed: Vec<(AccountOwner, OrderId)> = Vec::new();
    let mut i: usize = 0;
    let mut done = amount.0 == 0;
    while i < level.len() && !done
        invariant
            i <= level.len(),
            l0 == old(level)@,
            a0 == old(amount).0 as nat,
            t0 == old(transfers)@,
            level@.len() == l0.len(),
            ({
                let c = clearing(l0, i as nat, a0, t0, nature, owner, price_level.price, price_insert.price);
                &&& !c.failed
                &&& c.level == level@
                &&& c.amount == amount.0
                &&& c.removed == removed@
                &&& c.transfers == transfers@
                &&& c.done == done
            }),
            nature == OrderNature::Bid ==> price_insert.price >= price_level.price,
            nature == OrderNature::Ask ==> price_insert.price <= price_level.price,
        decreases level.len() - i,
    {
        proof { lemma_clearing_shape(l0, i as nat, a0, t0, nature, owner, price_level.price, price_insert.price); }
        let order = level[i];
        let fill = if order.amount.0 <= amount.0 { order.amount } else { *amount };
        if fill.0 > 0 {
            let t = get_transfers(nature, fill, owner, &order, price_level, price_insert);
            match t {
                Ok(t) => {
                    let mut t = t;
                    transfers.append(&mut t);
                },
                Err(e) => {
                    proof {
                        assert(fill_transfers(nature, fill, owner, order.owner, price_level.price, price_insert.price) is None);
                        assert(clearing(l0, (i + 1) as nat, a0, t0, nature, owner, price_level.price, price_insert.price).failed);
                        lemma_clearing_rest(l0, (i + 1) as nat, l0.len(), a0, t0, nature, owner, price_level.price, price_insert.price);
                        assert(clearing(l0, l0.len(), a0, t0, nature, owner, price_level.price, price_insert.price).failed);
                        assert(e == MatchingEngineError::Overflow);
                    }
                    return Err(e);
                },
            }
        }
        amount.0 = amount.0 - fill.0;
        let left = OrderEntry { amount: Amount(order.amount.0 - fill.0), owner: order.owner, order_id: order.order_id };
        level.set(i, left);
        if left.amount.0 == 0 {
            removed.push((order.owner, order.order_id));
        }
        done = amount.0 == 0;
        i = i + 1;
    }
    proof {
        lemma_clearing_shape(l0, i as nat, a0, t0, nature, owner, price_level.price, price_insert.price);
        lemma_clearing_rest(l0, i as nat, l0.len(), a0, t0, nature, owner, price_level.price, price_insert.price);
    }
    remove_zero_orders_from_level(level);
    Ok(removed)
}

/// Once the clearing is done or failed, further orders change nothing.
proof fn lemma_clearing_rest(level: Seq<OrderEntry>, n: nat, m: nat, amount: nat, transfers: Seq<Transfer>, nature: OrderNature, owner: AccountOwner, pl: u64, pi: u64)
    requires
        n <= m,
        clearing(level, n, amount, transfers, nature, owner, pl, pi).done
            || clearing(level, n, amount, transfers, nature, owner, pl, pi).failed
            || n == m,
    ensures
        clearing(level, m, amount, transfers, nature, owner, pl, pi) == clearing(level, n, amount, transfers, nature, owner, pl, pi),
    decreases m - n,
{
    if n < m {
        lemma_clearing_rest(level, n, (m - 1) as nat, amount, transfers, nature, owner, pl, pi);
    }
}

/// The position of the first order with id `order_id`, if any.
pub open spec fn find_order(level: Seq<OrderEntry>, order_id: OrderId) -> Option<int> {
    if exists|j: int| 0 <= j < level.len() && level[j].order_id == order_id {
        Some(choose|j: int| 0 <= j < level.len() && level[j].order_id == order_id
            && forall|m: int| 0 <= m < j ==> level[m].order_id != order_id)
    } else {
        None
    }
}

/// Cancels all or part of the order `order_id` in the level, then removes the zero orders at its
/// front. Returns the amount cancelled and whether the order is used up.
pub fn modify_order_level(level: &mut Vec<OrderEntry>, order_id: OrderId, cancel_amount: ModifyAmount)
    -> (r: Result<(Amount, bool), MatchingEngineError>)
    ensures
        r == modify_outcome(old(level)@, order_id, cancel_amount),
        final(level)@ == modified_level(old(level)@, order_id, cancel_amount),
        !(exists|j: int| 0 <= j < old(level)@.len() && old(level)@[j].order_id == order_id)
            ==> r == Err::<(Amount, bool), MatchingEngineError>(MatchingEngineError::OrderNotPresent)
                && final(level)@ == old(level)@,
        exists|j: int| 0 <= j < old(level)@.len() && old(level)@[j].order_id == order_id ==> ({
            let j = find_order(old(level)@, order_id)->0;
            let order = old(level)@[j];
            let new_amount: u128 = match cancel_amount {
                ModifyAmount::All => 0,
                ModifyAmount::Partial(c) => (order.amount.0 - c.0) as u128,
            };
            let changed = old(level)@.update(j, OrderEntry { amount: Amount(new_amount), ..order });
            &&& (cancel_amount matches ModifyAmount::Partial(c) && c.0 > order.amount.0)
                ==> r == Err::<(Amount, bool), MatchingEngineError>(MatchingEngineError::TooLargeModifyOrder)
                    && final(level)@ == old(level)@
            &&& !(cancel_amount matches ModifyAmount::Partial(c) && c.0 > order.amount.0)
                ==> r == Ok::<(Amount, bool), MatchingEngineError>((Amount((order.amount.0 - new_amount) as u128), new_amount == 0))
                    && final(level)@ == changed.skip(zero_prefix_len(changed) as int)
        }),
{
    let mut j: usize = 0;
    while j < level.len() && level[j].order_id != order_id
        invariant
            j <= level.len(),
            forall|m: int| 0 <= m < j ==> level@[m].order_id != order_id,
        decreases level.len() - j,
    {
        j = j + 1;
    }
    if j == level.len() {
        return Err(MatchingEngineError::OrderNotPresent);
    }
    proof {
        let fj = find_order(level@, order_id)->0;
        assert(fj == j) by {
            if fj < j {
                assert(level@[fj].order_id != order_id);
            } else if fj > j {
                assert(level@[j as int].order_id == order_id);
            }
        }
    }
    let order = level[j];
    let new_amount: u128 = match cancel_amount {
        ModifyAmount::All => 0,
        ModifyAmount::Partial(c) => {
            if c.0 > order.amount.0 {
                return Err(MatchingEngineError::TooLargeModifyOrder);
            }
            order.amount.0 - c.0
        },
    };
    let cancelled = Amount(order.amount.0 - new_amount);
    level.set(j, OrderEntry { amount: Amount(new_amount), owner: order.owner, order_id: order.order_id });
    remove_zero_orders_from_level(level);
    Ok((cancelled, new_amount == 0))
}

/// What cancelling all or part of `order_id` in a level yields: the amount cancelled and whether
/// the order is used up, or why it cannot be done.
pub open spec fn modify_outcome(level: Seq<OrderEntry>, order_id: OrderId, cancel_amount: ModifyAmount)
    -> Result<(Amount, bool), MatchingEngineError>
{
    match find_order(level, order_id) {
        None => Err(MatchingEngineError::OrderNotPresent),
        Some(j) => {
            let order = level[j];
            match cancel_amount {
                ModifyAmount::All => Ok((order.amount, true)),
                ModifyAmount::Partial(c) => if c.0 > order.amount.0 {
                    Err(MatchingEngineError::TooLargeModifyOrder)
                } else {
                    Ok((c, order.amount.0 - c.0 == 0))
                },
            }
        },
    }
}

/// The refund for cancelling `cancelled` of an order: for a bid the price times the amount in
/// token 0, for an ask the amount in token 1.
pub open spec fn refund(kb: KeyBook, cancelled: Amount) -> Result<Transfer, MatchingEngineError> {
    match kb.nature {
        OrderNature::Bid => match product(kb.price.price, cancelled) {
            Some(a) => Ok(Transfer { owner: kb.owner, amount: a, token_idx: 0 }),
            None => Err(MatchingEngineError::Overflow),
        },
        OrderNature::Ask => Ok(Transfer { owner: kb.owner, amount: cancelled, token_idx: 1 }),
    }
}

/// The levels of the side that a resting order of `nature` is on.
pub open spec fn side_of(engine: MatchingEngine, nature: OrderNature) -> Seq<(u64, Vec<OrderEntry>)> {
    match nature {
        OrderNature::Bid => engine.bids.levels@,
        OrderNature::Ask => engine.asks.levels@,
    }
}

/// The side after appending `e` to the level at `price`: at the end of that level's queue where
/// the level exists, else in a new level placed in best-first order.
pub open spec fn push_level(levels: Seq<(u64, Seq<OrderEntry>)>, nature: OrderNature, price: u64, e: OrderEntry)
    -> Seq<(u64, Seq<OrderEntry>)>
    decreases levels.len(),
{
    if levels.len() == 0 {
        seq![(price, seq![e])]
    } else if levels[0].0 == price {
        levels.update(0, (price, levels[0].1.push(e)))
    } else if better(nature, price, levels[0].0) {
        seq![(price, seq![e])] + levels
    } else {
        seq![levels[0]] + push_level(levels.skip(1), nature, price, e)
    }
}

/// Best-first order of level views.
pub open spec fn views_sorted(levels: Seq<(u64, Seq<OrderEntry>)>, nature: OrderNature) -> bool {
    forall|i: int, j: int| 0 <= i < j < levels.len() ==> better(nature, (#[trigger] levels[i]).0, (#[trigger] levels[j]).0)
}

proof fn lemma_views_sorted(levels: Seq<(u64, Vec<OrderEntry>)>, nature: OrderNature)
    requires
        side_sorted(levels, nature),
    ensures
        views_sorted(level_views(levels), nature),
{
    assert forall|i: int, j: int| 0 <= i < j < level_views(levels).len() implies
        better(nature, (#[trigger] level_views(levels)[i]).0, (#[trigger] level_views(levels)[j]).0) by {
        assert(level_views(levels)[i].0 == levels[i].0 && level_views(levels)[j].0 == levels[j].0);
    }
}

proof fn lemma_push_existing(levels: Seq<(u64, Seq<OrderEntry>)>, nature: OrderNature, price: u64, e: OrderEntry, i: int)
    requires
        views_sorted(levels, nature),
        0 <= i < levels.len(),
        levels[i].0 == price,
    ensures
        push_level(levels, nature, price, e) == levels.update(i, (price, levels[i].1.push(e))),
    decreases levels.len(),
{
    if levels[0].0 != price {
        assert(i > 0);
        assert(better(nature, levels[0].0, levels[i].0));
        let t = levels.skip(1);
        assert(views_sorted(t, nature)) by {
            assert forall|a: int, b: int| 0 <= a < b < t.len() implies better(nature, (#[trigger] t[a]).0, (#[trigger] t[b]).0) by {
                assert(t[a] == levels[a + 1] && t[b] == levels[b + 1]);
            }
        }
        lemma_push_existing(t, nature, price, e, i - 1);
        assert(seq![levels[0]] + t.update(i - 1, (price, t[i - 1].1.push(e))) =~= levels.update(i, (price, levels[i].1.push(e))));
    } else if i > 0 {
        assert(better(nature, levels[0].0, levels[i].0));
    }
}

proof fn lemma_push_new(levels: Seq<(u64, Seq<OrderEntry>)>, nature: OrderNature, price: u64, e: OrderEntry, i: int)
    requires
        views_sorted(levels, nature),
        0 <= i <= levels.len(),
        forall|j: int| 0 <= j < levels.len() ==> levels[j].0 != price,
        forall|j: int| 0 <= j < i ==> better(nature, #[trigger] levels[j].0, price),
        i < levels.len() ==> !better(nature, levels[i].0, price),
    ensures
        push_level(levels, nature, price, e) == levels.take(i).push((price, seq![e])) + levels.skip(i),
    decreases levels.len(),
{
    if levels.len() == 0 {
        assert(levels.take(i).push((price, seq![e])) + levels.skip(i) =~= seq![(price, seq![e])]);
    } else if i == 0 {
        assert(levels[0].0 != price);
        assert(levels.take(0).push((price, seq![e])) + levels.skip(0) =~= seq![(price, seq![e])] + levels);
    } else {
        assert(better(nature, levels[0].0, price));
        let t = levels.skip(1);
        assert(views_sorted(t, nature)) by {
            assert forall|a: int, b: int| 0 <= a < b < t.len() implies better(nature, (#[trigger] t[a]).0, (#[trigger] t[b]).0) by {
                assert(t[a] == levels[a + 1] && t[b] == levels[b + 1]);
            }
        }
        assert forall|j: int| 0 <= j < i - 1 implies better(nature, #[trigger] t[j].0, price) by {
            assert(t[j] == levels[j + 1]);
        }
        lemma_push_new(t, nature, price, e, i - 1);
        assert(seq![levels[0]] + (t.take(i - 1).push((price, seq![e])) + t.skip(i - 1))
            =~= levels.take(i).push((price, seq![e])) + levels.skip(i));
    }
}

/// The level after cancelling all or part of `order_id` in it, where that can be done: the
/// order's amount lowered, then the zero orders at the front removed. Unchanged otherwise.
pub open spec fn modified_level(level: Seq<OrderEntry>, order_id: OrderId, cancel_amount: ModifyAmount) -> Seq<OrderEntry> {
    match find_order(level, order_id) {
        None => level,
        Some(j) => {
            let order = level[j];
            if cancel_amount matches ModifyAmount::Partial(c) && c.0 > order.amount.0 {
                level
            } else {
                let new_amount: u128 = match cancel_amount {
                    ModifyAmount::All => 0,
                    ModifyAmount::Partial(c) => (order.amount.0 - c.0) as u128,
                };
                let changed = level.update(j, OrderEntry { amount: Amount(new_amount), ..order });
                changed.skip(zero_prefix_len(changed) as int)
            }
        },
    }
}

/// The other side of the book.
pub open spec fn other_nature(nature: OrderNature) -> OrderNature {
    match nature {
        OrderNature::Bid => OrderNature::Ask,
        OrderNature::Ask => OrderNature::Bid,
    }
}

/// What inserting an order does: it takes the next id, uncrosses the opposite side (see
/// `uncross`), returns the payments, and rests what is left at its price on its own side (see
/// `push_level`).
pub open spec fn insert_effect(
    old: MatchingEngine,
    new: MatchingEngine,
    owner: AccountOwner,
    amount: Amount,
    nature: OrderNature,
    price: Price,
    r: Result<Vec<Transfer>, MatchingEngineError>,
) -> bool {
    if old.next_order_number == u64::MAX {
        r == Err::<Vec<Transfer>, MatchingEngineError>(MatchingEngineError::Overflow)
    } else {
        let m = uncross(level_views(side_of(old, other_nature(nature))), amount.0 as nat, Seq::empty(), Seq::empty(),
            nature, owner, price.price);
        &&& m.failed ==> r == Err::<Vec<Transfer>, MatchingEngineError>(MatchingEngineError::Overflow)
        &&& !m.failed ==> {
            &&& r is Ok
            &&& r->Ok_0@ == m.transfers
            &&& new.next_order_number == old.next_order_number + 1
            &&& level_views(side_of(new, other_nature(nature))) == m.levels
            &&& m.amount == 0 ==> level_views(side_of(new, nature)) == level_views(side_of(old, nature))
            &&& m.amount > 0 ==> level_views(side_of(new, nature)) == push_level(level_views(side_of(old, nature)), nature,
                price.price, OrderEntry { amount: Amount(m.amount as u128), owner, order_id: old.next_order_number })
        }
    }
}

/// What cancelling all or part of an indexed order does: the refund (see `refund`) or the error
/// of `modify_outcome`, its level replaced by `modified_level`, the other side unchanged, and an
/// order used up leaving the index.
pub open spec fn modify_effect(
    old: MatchingEngine,
    new: MatchingEngine,
    order_id: OrderId,
    cancel_amount: ModifyAmount,
    r: Result<Transfer, MatchingEngineError>,
) -> bool {
    match lookup(old.orders@, order_id) {
        None => r == Err::<Transfer, MatchingEngineError>(MatchingEngineError::OrderNotPresent),
        Some(kb) => {
            let side = side_of(old, kb.nature);
            &&& level_views(side_of(new, other_nature(kb.nature))) == level_views(side_of(old, other_nature(kb.nature)))
            &&& (forall|j: int| 0 <= j < side.len() ==> side[j].0 != kb.price.price)
                ==> r == Err::<Transfer, MatchingEngineError>(MatchingEngineError::OrderNotPresent)
                    && level_views(side_of(new, kb.nature)) == level_views(side)
            &&& forall|j: int| 0 <= j < side.len() && (#[trigger] side[j]).0 == kb.price.price ==> {
                &&& level_views(side_of(new, kb.nature)) == level_views(side).update(j,
                    (kb.price.price, modified_level(side[j].1@, order_id, cancel_amount)))
                &&& match modify_outcome(side[j].1@, order_id, cancel_amount) {
                    Err(e) => r == Err::<Transfer, MatchingEngineError>(e),
                    Ok((cancelled, used_up)) => r == refund(kb, cancelled) && (used_up ==> !indexed(new.orders@, order_id)),
                }
            }
        },
    }
}

/// What a cancel or modify by `owner` does: an error where the order is not indexed or not
/// theirs, else `modify_effect`.
pub open spec fn check_effect(
    old: MatchingEngine,
    new: MatchingEngine,
    order_id: OrderId,
    cancel_amount: ModifyAmount,
    owner: AccountOwner,
    r: Result<Transfer, MatchingEngineError>,
) -> bool {
    match lookup(old.orders@, order_id) {
        None => r == Err::<Transfer, MatchingEngineError>(MatchingEngineError::OrderNotPresent),
        Some(kb) => {
            &&& kb.owner != owner ==> r == Err::<Transfer, MatchingEngineError>(MatchingEngineError::WrongOwnerOfOrder)
            &&& kb.owner == owner ==> modify_effect(old, new, order_id, cancel_amount, r)
        },
    }
}

/// The list of payments for a single refund, or its error.
pub open spec fn one_transfer(r: Result<Vec<Transfer>, MatchingEngineError>, rt: Result<Transfer, MatchingEngineError>) -> bool {
    match rt {
        Ok(t) => r is Ok && r->Ok_0@ == seq![t],
        Err(e) => r == Err::<Vec<Transfer>, MatchingEngineError>(e),
    }
}

/// What executing an order on the book does.
pub open spec fn local_effect(old: MatchingEngine, new: MatchingEngine, order: Order, r: Result<Vec<Transfer>, MatchingEngineError>) -> bool {
    match order {
        Order::Insert { owner, amount, nature, price } => insert_effect(old, new, owner, amount, nature, price, r),
        Order::Cancel { owner, order_id } => exists|rt: Result<Transfer, MatchingEngineError>|
            #[trigger] check_effect(old, new, order_id, ModifyAmount::All, owner, rt) && one_transfer(r, rt),
        Order::Modify { owner, order_id, cancel_amount } => exists|rt: Result<Transfer, MatchingEngineError>|
            #[trigger] check_effect(old, new, order_id, ModifyAmount::Partial(cancel_amount), owner, rt) && one_transfer(r, rt),
    }
}

/// A resting side of the book: price levels, best price first, each a queue of orders in
/// arrival order.
pub struct BookSide {
    pub levels: Vec<(u64, Vec<OrderEntry>)>,
}

/// The order book of the engine.
pub struct MatchingEngine {
    /// The identifier of the next order.
    pub next_order_number: u64,
    /// Where each resting order is.
    pub orders: Vec<(OrderId, KeyBook)>,
    /// The resting orders of each owner.
    pub account_info: Vec<(AccountOwner, Vec<OrderId>)>,
    /// Bids, highest price first.
    pub bids: BookSide,
    /// Asks, lowest price first.
    pub asks: BookSide,
}

/// A level at price `a` is better than one at price `b` on the side of `nature`.
pub open spec fn better(nature: OrderNature, a: u64, b: u64) -> bool {
    match nature {
        OrderNature::Bid => a > b,
        OrderNature::Ask => a < b,
    }
}

/// The levels are in strictly best-first order for the side of `nature`.
pub open spec fn side_sorted(levels: Seq<(u64, Vec<OrderEntry>)>, nature: OrderNature) -> bool {
    forall|i: int, j: int| 0 <= i < j < levels.len() ==> better(nature, (#[trigger] levels[i]).0, (#[trigger] levels[j]).0)
}

/// A resting level at `level_price` on the opposite side crosses an incoming order of `nature`
/// at `price`.
pub open spec fn crosses(nature: OrderNature, level_price: u64, price: u64) -> bool {
    match nature {
        OrderNature::Bid => level_price <= price,
        OrderNature::Ask => level_price >= price,
    }
}

impl BookSide {
    /// The position of the level at `price`, if any.
    fn position(&self, price: u64) -> (r: Option<usize>)
        ensures
            r matches Some(i) ==> i < self.levels.len() && self.levels@[i as int].0 == price,
            r is None ==> forall|i: int| 0 <= i < self.levels.len() ==> self.levels@[i].0 != price,
    {
        let mut i: usize = 0;
        while i < self.levels.len()
            invariant
                i <= self.levels.len(),
                forall|m: int| 0 <= m < i ==> self.levels@[m].0 != price,
            decreases self.levels.len() - i,
        {
            if self.levels[i].0 == price {
                return Some(i);
            }
            i = i + 1;
        }
        None
    }

    /// Cancels all or part of `order_id` in the level at `price`; see `modify_outcome`.
    #[verifier::rlimit(50)]
    fn modify_in_level(&mut self, nature: OrderNature, price: u64, order_id: OrderId, cancel_amount: ModifyAmount)
        -> (r: Result<(Amount, bool), MatchingEngineError>)
        requires
            side_sorted(old(self).levels@, nature),
        ensures
            side_sorted(final(self).levels@, nature),
            final(self).levels@.len() == old(self).levels@.len(),
            forall|j: int| 0 <= j < final(self).levels@.len() ==> (#[trigger] final(self).levels@[j]).0 == old(self).levels@[j].0,
            (forall|j: int| 0 <= j < old(self).levels@.len() ==> old(self).levels@[j].0 != price)
                ==> r == Err::<(Amount, bool), MatchingEngineError>(MatchingEngineError::OrderNotPresent),
            forall|j: int| 0 <= j < old(self).levels@.len() && (#[trigger] old(self).levels@[j]).0 == price
                ==> r == modify_outcome(old(self).levels@[j].1@, order_id, cancel_amount)
                    && level_views(final(self).levels@) == level_views(old(self).levels@).update(j,
                        (price, modified_level(old(self).levels@[j].1@, order_id, cancel_amount))),
            (forall|j: int| 0 <= j < old(self).levels@.len() ==> old(self).levels@[j].0 != price)
                ==> level_views(final(self).levels@) == level_views(old(self).levels@),
    {
        let j = match self.position(price) {
            Some(j) => j,
            None => return Err(MatchingEngineError::OrderNotPresent),
        };
        let ghost before = self.levels@;
        let r = modify_order_level(&mut self.levels[j].1, order_id, cancel_amount);
        proof {
            let lv = before[j as int].1@;
            assert(level_views(self.levels@) =~= level_views(before).update(j as int,
                (price, modified_level(lv, order_id, cancel_amount))));
            assert forall|a: int, b: int| 0 <= a < b < self.levels@.len() implies better(nature, (#[trigger] self.levels@[a]).0, (#[trigger] self.levels@[b]).0) by {
                assert(self.levels@[a].0 == before[a].0 && self.levels@[b].0 == before[b].0);
            }
            assert forall|k: int| 0 <= k < before.len() && (#[trigger] before[k]).0 == price implies k == j by {
                if k < j {
                    assert(better(nature, before[k].0, before[j as int].0));
                } else if k > j {
                    assert(better(nature, before[j as int].0, before[k].0));
                }
            }
        }
        r
    }

    /// Appends `order` to the level at `price`, creating the level in its place if absent.
    fn push_order(&mut self, nature: OrderNature, price: u64, order: OrderEntry)
        requires
            side_sorted(old(self).levels@, nature),
        ensures
            side_sorted(final(self).levels@, nature),
            exists|i: int| 0 <= i < final(self).levels@.len() && final(self).levels@[i].0 == price
                && final(self).levels@[i].1@.len() > 0 && final(self).levels@[i].1@.last() == order,
            final(self).levels@.len() > 0,
            level_views(final(self).levels@) == push_level(level_views(old(self).levels@), nature, price, order),
            final(self).levels@[0].0 == (if old(self).levels@.len() == 0 || better(nature, price, old(self).levels@[0].0) {
                price
            } else {
                old(self).levels@[0].0
            }),
    {
        match self.position(price) {
            Some(i) => {
                self.levels[i].1.push(order);
                proof {
                    assert forall|a: int, b: int| 0 <= a < b < self.levels@.len() implies better(nature, (#[trigger] self.levels@[a]).0, (#[trigger] self.levels@[b]).0) by {
                        assert(self.levels@[a].0 == old(self).levels@[a].0 && self.levels@[b].0 == old(self).levels@[b].0);
                    }
                    assert(self.levels@[i as int].1@.last() == order);
                    assert(self.levels@[0].0 == old(self).levels@[0].0);
                    let ov = level_views(old(self).levels@);
                    lemma_views_sorted(old(self).levels@, nature);
                    lemma_push_existing(ov, nature, price, order, i as int);
                    assert(level_views(self.levels@) =~= ov.update(i as int, (price, ov[i as int].1.push(order))));
                    if i > 0 {
                        assert(better(nature, old(self).levels@[0].0, old(self).levels@[i as int].0));
                    }
                }
            },
            None => {
                let mut i: usize = 0;
                while i < self.levels.len() && is_better(nature, self.levels[i].0, price)
                    invariant
                        i <= self.levels.len(),
                        self.levels@ == old(self).levels@,
                        forall|m: int| 0 <= m < i ==> better(nature, #[trigger] self.levels@[m].0, price),
                    decreases self.levels.len() - i,
                {
                    i = i + 1;
                }
                let ghost at = i as int;
                let ghost before = self.levels@;
                let mut level: Vec<OrderEntry> = Vec::new();
                level.push(order);
                self.levels.insert(i, (price, level));
                proof {
                    let s = self.levels@;
                    assert(s =~= before.take(at).push(s[at]) + before.skip(at));
                    assert forall|a: int, b: int| 0 <= a < b < s.len() implies better(nature, (#[trigger] s[a]).0, (#[trigger] s[b]).0) by {
                        if b < at {
                            assert(s[a] == before[a] && s[b] == before[b]);
                        } else if b == at {
                            assert(s[a] == before[a]);
                        } else if a == at {
                            assert(s[b] == before[b - 1]);
                            assert(before[at].0 != price);
                            assert(!better(nature, before[at].0, price));
                        } else if a < at {
                            assert(s[a] == before[a] && s[b] == before[b - 1]);
                        } else {
                            assert(s[a] == before[a - 1] && s[b] == before[b - 1]);
                        }
                    }
                    assert(s[at].1@.last() == order);
                    let ov = level_views(before);
                    lemma_views_sorted(before, nature);
                    assert forall|j: int| 0 <= j < ov.len() implies ov[j].0 != price by {
                        assert(ov[j].0 == before[j].0);
                    }
                    assert forall|j: int| 0 <= j < at implies better(nature, #[trigger] ov[j].0, price) by {
                        assert(ov[j].0 == before[j].0);
                    }
                    if at < before.len() {
                        assert(ov[at].0 == before[at].0);
                    }
                    lemma_push_new(ov, nature, price, order, at);
                    assert(level_views(s) =~= ov.take(at).push((price, seq![order])) + ov.skip(at));
                    if at > 0 {
                        assert(s[0] == before[0]);
                        assert(better(nature, before[0].0, price));
                    } else if before.len() > 0 {
                        assert(before[0].0 != price);
                        assert(!better(nature, before[0].0, price));
                    }
                }
            },
        }
    }
}

/// Whether `better` holds, computed.
fn is_better(nature: OrderNature, a: u64, b: u64) -> (r: bool)
    ensures
        r == better(nature, a, b),
{
    match nature {
        OrderNature::Bid => a > b,
        OrderNature::Ask => a < b,
    }
}

proof fn lemma_clearing_exhausts(level: Seq<OrderEntry>, n: nat, amount: nat, transfers: Seq<Transfer>, nature: OrderNature, owner: AccountOwner, pl: u64, pi: u64)
    requires
        n <= level.len(),
    ensures
        ({
            let c = clearing(level, n, amount, transfers, nature, owner, pl, pi);
            &&& c.level.len() == level.len()
            &&& !c.failed ==> (c.done <==> c.amount == 0)
            &&& !c.failed && !c.done ==> forall|k: int| 0 <= k < n ==> (#[trigger] c.level[k]).amount.0 == 0
        }),
    decreases n,
{
    if n > 0 {
        lemma_clearing_exhausts(level, (n - 1) as nat, amount, transfers, nature, owner, pl, pi);
        let p = clearing(level, (n - 1) as nat, amount, transfers, nature, owner, pl, pi);
        let c = clearing(level, n, amount, transfers, nature, owner, pl, pi);
        if !c.failed && !c.done {
            assert forall|k: int| 0 <= k < n implies (#[trigger] c.level[k]).amount.0 == 0 by {
                if k < n - 1 {
                    assert(c.level[k] == p.level[k]);
                }
            }
        }
    }
}

proof fn lemma_all_zero_prefix(level: Seq<OrderEntry>)
    requires
        forall|k: int| 0 <= k < level.len() ==> (#[trigger] level[k]).amount.0 == 0,
    ensures
        zero_prefix_len(level) == level.len(),
    decreases level.len(),
{
    if level.len() > 0 {
        assert forall|k: int| 0 <= k < level.skip(1).len() implies (#[trigger] level.skip(1)[k]).amount.0 == 0 by {
            assert(level.skip(1)[k] == level[k + 1]);
        }
        lemma_all_zero_prefix(level.skip(1));
    }
}

/// The levels of a side with their orders as sequences.
pub open spec fn level_views(levels: Seq<(u64, Vec<OrderEntry>)>) -> Seq<(u64, Seq<OrderEntry>)> {
    levels.map_values(|l: (u64, Vec<OrderEntry>)| (l.0, l.1@))
}

/// The state of uncrossing a side against an incoming order.
pub struct Uncross {
    pub levels: Seq<(u64, Seq<OrderEntry>)>,
    pub amount: nat,
    pub transfers: Seq<Transfer>,
    pub removed: Seq<(AccountOwner, OrderId)>,
    pub failed: bool,
}

/// Uncrossing `levels` (best first) against an incoming order of `nature` at `price` for
/// `amount` units: while the amount lasts and the best level crosses, clear it (see
/// `clearing`); a level used up is dropped, and a level left with orders ends the walk.
pub open spec fn uncross(
    levels: Seq<(u64, Seq<OrderEntry>)>,
    amount: nat,
    transfers: Seq<Transfer>,
    removed: Seq<(AccountOwner, OrderId)>,
    nature: OrderNature,
    owner: AccountOwner,
    price: u64,
) -> Uncross
    decreases levels.len(),
{
    if amount == 0 || levels.len() == 0 || !crosses(nature, levels[0].0, price) {
        Uncross { levels, amount, transfers, removed, failed: false }
    } else {
        let l = levels[0].1;
        let c = clearing(l, l.len(), amount, transfers, nature, owner, levels[0].0, price);
        if c.failed {
            Uncross { levels, amount, transfers, removed, failed: true }
        } else {
            let rest = c.level.skip(zero_prefix_len(c.level) as int);
            if rest.len() > 0 {
                Uncross {
                    levels: levels.update(0, (levels[0].0, rest)),
                    amount: c.amount,
                    transfers: c.transfers,
                    removed: removed + c.removed,
                    failed: false,
                }
            } else {
                uncross(levels.skip(1), c.amount, c.transfers, removed + c.removed, nature, owner, price)
            }
        }
    }
}

/// Whether a level at `level_price` crosses an incoming order of `nature` at `price`.
fn crosses_price(nature: OrderNature, level_price: u64, price: u64) -> (r: bool)
    ensures
        r == crosses(nature, level_price, price),
{
    match nature {
        OrderNature::Bid => level_price <= price,
        OrderNature::Ask => level_price >= price,
    }
}

/// Clears the crossing levels of `side`, best first, against an incoming order of `nature` at
/// `price` for `*amount` units, until the amount is used up or no level crosses. Levels left
/// empty are removed. Returns the orders used up.
fn uncross_side(
    side: &mut BookSide,
    side_nature: OrderNature,
    owner: AccountOwner,
    amount: &mut Amount,
    transfers: &mut Vec<Transfer>,
    nature: OrderNature,
    price: Price,
) -> (r: Result<Vec<(AccountOwner, OrderId)>, MatchingEngineError>)
    requires
        side_sorted(old(side).levels@, side_nature),
    ensures
        r is Ok ==> side_sorted(final(side).levels@, side_nature),
        r is Ok ==> final(amount).0 <= old(amount).0,
        r is Ok && final(amount).0 > 0 ==> final(side).levels@.len() == 0
            || !crosses(nature, final(side).levels@[0].0, price.price),
        r is Ok && final(side).levels@.len() > 0 ==> old(side).levels@.len() > 0
            && !better(side_nature, final(side).levels@[0].0, old(side).levels@[0].0),
        ({
            let m = uncross(level_views(old(side).levels@), old(amount).0 as nat, old(transfers)@,
                Seq::empty(), nature, owner, price.price);
            &&& m.failed ==> r == Err::<Vec<(AccountOwner, OrderId)>, MatchingEngineError>(MatchingEngineError::Overflow)
            &&& !m.failed ==> r is Ok && r->Ok_0@ == m.removed && level_views(final(side).levels@) == m.levels
                && final(amount).0 == m.amount && final(transfers)@ == m.transfers
        }),
{
    let mut removed: Vec<(AccountOwner, OrderId)> = Vec::new();
    let mut stop = false;
    let ghost m = uncross(level_views(side.levels@), amount.0 as nat, transfers@, Seq::empty(), nature, owner, price.price);
    assert(removed@ =~= Seq::<(AccountOwner, OrderId)>::empty());
    while !stop && amount.0 > 0 && side.levels.len() > 0 && crosses_price(nature, side.levels[0].0, price.price)
        invariant
            m == uncross(level_views(old(side).levels@), old(amount).0 as nat, old(transfers)@, Seq::empty(), nature, owner, price.price),
            !stop ==> uncross(level_views(side.levels@), amount.0 as nat, transfers@, removed@, nature, owner, price.price) == m,
            stop ==> !m.failed && m.levels == level_views(side.levels@) && m.amount == amount.0
                && m.transfers == transfers@ && m.removed == removed@,
            side_sorted(side.levels@, side_nature),
            amount.0 <= old(amount).0,
            stop ==> amount.0 == 0,
            side.levels@.len() > 0 ==> old(side).levels@.len() > 0
                && !better(side_nature, side.levels@[0].0, old(side).levels@[0].0),
        decreases side.levels.len(), if stop { 0int } else { 1int },
    {
        let ghost before = side.levels@;
        let (level_price, mut level) = side.levels.remove(0);
        proof {
            assert forall|a: int, b: int| 0 <= a < b < side.levels@.len() implies better(side_nature, (#[trigger] side.levels@[a]).0, (#[trigger] side.levels@[b]).0) by {
                assert(side.levels@[a] == before[a + 1] && side.levels@[b] == before[b + 1]);
            }
            if side.levels@.len() > 0 {
                assert(side.levels@[0] == before[1]);
                assert(better(side_nature, before[0].0, before[1].0));
            }
        }
        let ghost l0 = level@;
        let ghost a0 = amount.0 as nat;
        let ghost t0 = transfers@;
        let ghost r0 = removed@;
        proof {
            assert(level_views(before)[0] == (level_price, l0));
            assert(level_views(before).skip(1) =~= level_views(side.levels@));
        }
        let cleared_result = level_clearing(&mut level, owner, amount, transfers, nature, Price { price: level_price }, price);
        let mut cleared = match cleared_result {
            Ok(c) => c,
            Err(e) => {
                return Err(e);
            },
        };
        let ghost c0 = cleared@;
        proof {
            lemma_clearing_exhausts(l0, l0.len(), a0, t0, nature, owner, level_price, price.price);
            lemma_clearing_shape(l0, l0.len(), a0, t0, nature, owner, level_price, price.price);
            let c = clearing(l0, l0.len(), a0, t0, nature, owner, level_price, price.price);
            if c.amount > 0 {
                lemma_all_zero_prefix(c.level);
            }
        }
        removed.append(&mut cleared);
        proof {
            assert(removed@ == r0 + c0);
        }
        if level.len() > 0 {
            let ghost lv = level@;
            let ghost mid = side.levels@;
            side.levels.insert(0, (level_price, level));
            proof {
                assert(level_views(side.levels@) =~= level_views(before).update(0, (level_price, lv)));
                assert forall|a: int, b: int| 0 <= a < b < side.levels@.len() implies better(side_nature, (#[trigger] side.levels@[a]).0, (#[trigger] side.levels@[b]).0) by {
                    assert(side.levels@[b] == before[b]);
                    if a > 0 { assert(side.levels@[a] == before[a]); }
                }
            }
            stop = true;
        }
    }
    Ok(removed)
}

/// The best bid is below the best ask, where both sides hold levels.
pub open spec fn uncrossed(bids: Seq<(u64, Vec<OrderEntry>)>, asks: Seq<(u64, Vec<OrderEntry>)>) -> bool {
    bids.len() > 0 && asks.len() > 0 ==> bids[0].0 < asks[0].0
}

/// The order id is among the ids.
pub open spec fn indexed(orders: Seq<(OrderId, KeyBook)>, order_id: OrderId) -> bool {
    exists|i: int| 0 <= i < orders.len() && orders[i].0 == order_id
}

/// The position of the first entry for `order_id`.
pub open spec fn first_index(orders: Seq<(OrderId, KeyBook)>, order_id: OrderId) -> int {
    choose|i: int| 0 <= i < orders.len() && orders[i].0 == order_id
        && forall|m: int| 0 <= m < i ==> orders[m].0 != order_id
}

/// Where the order `order_id` rests, if it is indexed.
pub open spec fn lookup(orders: Seq<(OrderId, KeyBook)>, order_id: OrderId) -> Option<KeyBook> {
    if indexed(orders, order_id) { Some(orders[first_index(orders, order_id)].1) } else { None }
}

proof fn lemma_pushed_is_indexed(orders: Seq<(OrderId, KeyBook)>, order_id: OrderId)
    requires
        orders.len() > 0,
        orders.last().0 == order_id,
    ensures
        lookup(orders, order_id) is Some,
{
    assert(orders[orders.len() - 1].0 == order_id);
}

impl MatchingEngine {
    /// Both sides are in best-first order, and the book is uncrossed: the best bid is below the
    /// best ask.
    pub open spec fn wf(&self) -> bool {
        &&& side_sorted(self.bids.levels@, OrderNature::Bid)
        &&& side_sorted(self.asks.levels@, OrderNature::Ask)
        &&& uncrossed(self.bids.levels@, self.asks.levels@)
    }

    /// An empty book whose first order gets id 0.
    pub fn new() -> (r: MatchingEngine)
        ensures
            r.wf(),
            r.next_order_number == 0,
            r.bids.levels@.len() == 0,
            r.asks.levels@.len() == 0,
            r.orders@.len() == 0,
    {
        MatchingEngine {
            next_order_number: 0,
            orders: Vec::new(),
            account_info: Vec::new(),
            bids: BookSide { levels: Vec::new() },
            asks: BookSide { levels: Vec::new() },
        }
    }

    /// Takes the next order id; the ids increase from 0.
    pub fn get_new_order_id(&mut self) -> (r: Result<OrderId, MatchingEngineError>)
        ensures
            old(self).next_order_number < u64::MAX ==> r == Ok::<OrderId, MatchingEngineError>(old(self).next_order_number)
                && final(self).next_order_number == old(self).next_order_number + 1,
            old(self).next_order_number == u64::MAX ==> r == Err::<OrderId, MatchingEngineError>(MatchingEngineError::Overflow)
                && final(self).next_order_number == old(self).next_order_number,
            final(self).orders == old(self).orders,
            final(self).account_info == old(self).account_info,
            final(self).bids == old(self).bids,
            final(self).asks == old(self).asks,
    {
        let value = self.next_order_number;
        if value == u64::MAX {
            return Err(MatchingEngineError::Overflow);
        }
        self.next_order_number = value + 1;
        Ok(value)
    }

    /// The position of `order_id` among the indexed orders.
    fn order_position(&self, order_id: OrderId) -> (r: Option<usize>)
        ensures
            r matches Some(i) ==> i < self.orders.len() && self.orders@[i as int].0 == order_id
                && first_index(self.orders@, order_id) == i,
            r is None ==> !indexed(self.orders@, order_id),
    {
        let mut i: usize = 0;
        while i < self.orders.len()
            invariant
                i <= self.orders.len(),
                forall|m: int| 0 <= m < i ==> self.orders@[m].0 != order_id,
            decreases self.orders.len() - i,
        {
            if self.orders[i].0 == order_id {
                proof {
                    let f = first_index(self.orders@, order_id);
                    assert(f == i) by {
                        if f < i {
                            assert(self.orders@[f].0 != order_id);
                        } else if f > i {
                            assert(self.orders@[i as int].0 == order_id);
                        }
                    }
                }
                return Some(i);
            }
            i = i + 1;
        }
        None
    }

    /// Indexes a resting order: by id, and among its owner's orders.
    pub fn insert_order(&mut self, owner: AccountOwner, nature: OrderNature, order_id: OrderId, price: Price)
        ensures
            final(self).orders@ == old(self).orders@.push((order_id, KeyBook { price, nature, owner })),
            final(self).next_order_number == old(self).next_order_number,
            final(self).bids == old(self).bids,
            final(self).asks == old(self).asks,
    {
        let mut i: usize = 0;
        let mut found = false;
        while i < self.account_info.len() && !found
            invariant
                i <= self.account_info.len(),
                found ==> i < self.account_info.len(),
                self.orders == old(self).orders,
                self.next_order_number == old(self).next_order_number,
                self.bids == old(self).bids,
                self.asks == old(self).asks,
            decreases self.account_info.len() - i, if found { 0int } else { 1int },
        {
            if self.account_info[i].0 == owner {
                found = true;
            } else {
                i = i + 1;
            }
        }
        if found {
            self.account_info[i].1.push(order_id);
        } else {
            let mut ids: Vec<OrderId> = Vec::new();
            ids.push(order_id);
            self.account_info.push((owner, ids));
        }
        self.orders.push((order_id, KeyBook { price, nature, owner }));
    }

    /// Removes an order from the indexes: by id, and from its owner's orders.
    pub fn remove_order_id(&mut self, entry: (AccountOwner, OrderId))
        ensures
            !indexed(final(self).orders@, entry.1),
            forall|m: int| 0 <= m < final(self).orders@.len() ==> old(self).orders@.contains(#[trigger] final(self).orders@[m]),
            final(self).next_order_number == old(self).next_order_number,
            final(self).bids == old(self).bids,
            final(self).asks == old(self).asks,
    {
        let (owner, order_id) = entry;
        let mut i: usize = 0;
        while i < self.account_info.len()
            invariant
                i <= self.account_info.len(),
                self.orders == old(self).orders,
                self.next_order_number == old(self).next_order_number,
                self.bids == old(self).bids,
                self.asks == old(self).asks,
            decreases self.account_info.len() - i,
        {
            if self.account_info[i].0 == owner {
                let ids = self.account_info[i].1.clone();
                let mut kept: Vec<OrderId> = Vec::new();
                let mut j: usize = 0;
                while j < ids.len()
                    invariant
                        j <= ids.len(),
                    decreases ids.len() - j,
                {
                    if ids[j] != order_id {
                        kept.push(ids[j]);
                    }
                    j = j + 1;
                }
                self.account_info.set(i, (owner, kept));
            }
            i = i + 1;
        }
        let mut kept_orders: Vec<(OrderId, KeyBook)> = Vec::new();
        let mut k: usize = 0;
        while k < self.orders.len()
            invariant
                k <= self.orders.len(),
                self.orders == old(self).orders,
                forall|m: int| 0 <= m < kept_orders@.len() ==> (#[trigger] kept_orders@[m]).0 != order_id,
                forall|m: int| 0 <= m < kept_orders@.len() ==> old(self).orders@.contains(#[trigger] kept_orders@[m]),
            decreases self.orders.len() - k,
        {
            if self.orders[k].0 != order_id {
                let ghost prev = kept_orders@;
                kept_orders.push(self.orders[k]);
                proof {
                    assert forall|m: int| 0 <= m < kept_orders@.len() implies old(self).orders@.contains(#[trigger] kept_orders@[m]) by {
                        if m < prev.len() {
                            assert(kept_orders@[m] == prev[m]);
                        } else {
                            assert(kept_orders@[m] == old(self).orders@[k as int]);
                        }
                    }
                }
            }
            k = k + 1;
        }
        let ghost kept = kept_orders@;
        self.orders = kept_orders;
        proof {
            assert forall|m: int| 0 <= m < self.orders@.len() implies old(self).orders@.contains(#[trigger] self.orders@[m]) by {
                assert(self.orders@[m] == kept[m]);
            }
        }
        assert(!indexed(self.orders@, order_id));
    }
}

impl MatchingEngine {
    /// Removes the used-up orders from the indexes.
    pub fn remove_order_ids(&mut self, entries: Vec<(AccountOwner, OrderId)>)
        ensures
            forall|i: int| 0 <= i < entries@.len() ==> !indexed(final(self).orders@, (#[trigger] entries@[i]).1),
            final(self).next_order_number == old(self).next_order_number,
            final(self).bids == old(self).bids,
            final(self).asks == old(self).asks,
    {
        let mut i: usize = 0;
        while i < entries.len()
            invariant
                i <= entries.len(),
                forall|m: int| 0 <= m < i ==> !indexed(self.orders@, (#[trigger] entries@[m]).1),
                self.next_order_number == old(self).next_order_number,
                self.bids == old(self).bids,
                self.asks == old(self).asks,
            decreases entries.len() - i,
        {
            let ghost prev = self.orders@;
            self.remove_order_id(entries[i]);
            proof {
                assert forall|m: int| 0 <= m < i + 1 implies !indexed(self.orders@, (#[trigger] entries@[m]).1) by {
                    if m < i && indexed(self.orders@, entries@[m].1) {
                        let x = choose|x: int| 0 <= x < self.orders@.len() && self.orders@[x].0 == entries@[m].1;
                        assert(prev.contains(self.orders@[x]));
                        let j = choose|j: int| 0 <= j < prev.len() && prev[j] == self.orders@[x];
                        assert(indexed(prev, entries@[m].1));
                    }
                }
            }
            i = i + 1;
        }
    }

    /// Checks that the order is indexed and belongs to `owner`.
    pub fn check_order_id(&self, order_id: OrderId, owner: AccountOwner) -> (r: Result<(), MatchingEngineError>)
        ensures
            lookup(self.orders@, order_id) is None
                ==> r == Err::<(), MatchingEngineError>(MatchingEngineError::OrderNotPresent),
            lookup(self.orders@, order_id) matches Some(kb) ==> (kb.owner == owner ==> r is Ok)
                && (kb.owner != owner ==> r == Err::<(), MatchingEngineError>(MatchingEngineError::WrongOwnerOfOrder)),
    {
        match self.order_position(order_id) {
            None => Err(MatchingEngineError::OrderNotPresent),
            Some(i) => {
                if self.orders[i].1.owner != owner {
                    return Err(MatchingEngineError::WrongOwnerOfOrder);
                }
                Ok(())
            },
        }
    }

    /// Cancels all or part of an order and returns the refund to its owner: for a bid the price
    /// times the amount cancelled in token 0, for an ask the amount cancelled in token 1. An
    /// order used up leaves the indexes.
    pub fn modify_order(&mut self, order_id: OrderId, cancel_amount: ModifyAmount) -> (r: Result<Transfer, MatchingEngineError>)
        requires
            old(self).wf(),
        ensures
            final(self).wf(),
            lookup(old(self).orders@, order_id) is None
                ==> r == Err::<Transfer, MatchingEngineError>(MatchingEngineError::OrderNotPresent),
            r matches Ok(t) ==> lookup(old(self).orders@, order_id) matches Some(kb) && t.owner == kb.owner
                && (kb.nature == OrderNature::Ask ==> t.token_idx == 1)
                && (kb.nature == OrderNature::Bid ==> t.token_idx == 0),
            modify_effect(*old(self), *final(self), order_id, cancel_amount, r),
    {
        let i = match self.order_position(order_id) {
            Some(i) => i,
            None => return Err(MatchingEngineError::OrderNotPresent),
        };
        let key_book = self.orders[i].1;
        proof {
            assert(lookup(old(self).orders@, order_id) == Some(key_book));
        }
        let (cancelled, used_up) = match key_book.nature {
            OrderNature::Bid => self.bids.modify_in_level(OrderNature::Bid, key_book.price.price, order_id, cancel_amount)?,
            OrderNature::Ask => self.asks.modify_in_level(OrderNature::Ask, key_book.price.price, order_id, cancel_amount)?,
        };
        if used_up {
            self.remove_order_id((key_book.owner, order_id));
        }
        match key_book.nature {
            OrderNature::Bid => {
                let amount = product_price_amount(key_book.price, cancelled)?;
                Ok(Transfer { owner: key_book.owner, amount, token_idx: 0 })
            },
            OrderNature::Ask => Ok(Transfer { owner: key_book.owner, amount: cancelled, token_idx: 1 }),
        }
    }

    /// Checks the ownership of an order, then cancels all or part of it; see `modify_order`.
    pub fn modify_order_check(&mut self, order_id: OrderId, cancel_amount: ModifyAmount, owner: AccountOwner)
        -> (r: Result<Transfer, MatchingEngineError>)
        requires
            old(self).wf(),
        ensures
            final(self).wf(),
            lookup(old(self).orders@, order_id) is None
                ==> r == Err::<Transfer, MatchingEngineError>(MatchingEngineError::OrderNotPresent),
            lookup(old(self).orders@, order_id) matches Some(kb) && kb.owner != owner
                ==> r == Err::<Transfer, MatchingEngineError>(MatchingEngineError::WrongOwnerOfOrder),
            r matches Ok(t) ==> t.owner == owner,
            check_effect(*old(self), *final(self), order_id, cancel_amount, owner, r),
    {
        self.check_order_id(order_id, owner)?;
        self.modify_order(order_id, cancel_amount)
    }

    /// Inserts an order: it takes a new id, clears the crossing levels of the opposite side best
    /// first, and rests what is left at its price on its own side. Returns the payments of the
    /// fills.
    pub fn insert_and_uncross_market(&mut self, owner: AccountOwner, amount: Amount, nature: OrderNature, price: Price)
        -> (r: Result<Vec<Transfer>, MatchingEngineError>)
        requires
            old(self).wf(),
        ensures
            r is Ok ==> final(self).wf(),
            r is Ok ==> final(self).next_order_number == old(self).next_order_number + 1,
            old(self).next_order_number == u64::MAX
                ==> r == Err::<Vec<Transfer>, MatchingEngineError>(MatchingEngineError::Overflow),
            r is Ok && nature == OrderNature::Bid && final(self).bids != old(self).bids
                ==> final(self).asks.levels@.len() == 0 || !crosses(nature, final(self).asks.levels@[0].0, price.price),
            r is Ok && nature == OrderNature::Ask && final(self).asks != old(self).asks
                ==> final(self).bids.levels@.len() == 0 || !crosses(nature, final(self).bids.levels@[0].0, price.price),
            r is Ok && nature == OrderNature::Bid ==> final(self).bids == old(self).bids
                || lookup(final(self).orders@, old(self).next_order_number) is Some,
            insert_effect(*old(self), *final(self), owner, amount, nature, price, r),
    {
        let order_id = self.get_new_order_id()?;
        let mut final_amount = amount;
        let mut transfers: Vec<Transfer> = Vec::new();
        assert(transfers@ =~= Seq::<Transfer>::empty());
        let ghost bids0 = self.bids.levels@;
        let ghost asks0 = self.asks.levels@;
        match nature {
            OrderNature::Bid => {
                let removed = uncross_side(&mut self.asks, OrderNature::Ask, owner, &mut final_amount, &mut transfers, nature, price)?;
                self.remove_order_ids(removed);
                proof {
                    if self.asks.levels@.len() > 0 && bids0.len() > 0 {
                        assert(bids0[0].0 < asks0[0].0);
                    }
                }
                if final_amount.0 != 0 {
                    self.bids.push_order(OrderNature::Bid, price.price, OrderEntry { amount: final_amount, owner, order_id });
                    self.insert_order(owner, OrderNature::Bid, order_id, price);
                    proof { lemma_pushed_is_indexed(self.orders@, order_id); }
                }
            },
            OrderNature::Ask => {
                let removed = uncross_side(&mut self.bids, OrderNature::Bid, owner, &mut final_amount, &mut transfers, nature, price)?;
                self.remove_order_ids(removed);
                proof {
                    if self.bids.levels@.len() > 0 && asks0.len() > 0 {
                        assert(bids0[0].0 < asks0[0].0);
                    }
                }
                if final_amount.0 != 0 {
                    self.asks.push_order(OrderNature::Ask, price.price, OrderEntry { amount: final_amount, owner, order_id });
                    self.insert_order(owner, OrderNature::Ask, order_id, price);
                    proof { lemma_pushed_is_indexed(self.orders@, order_id); }
                }
            },
        }
        Ok(transfers)
    }

    /// Executes an order on the book and returns the payments out of custody. For an insertion
    /// the collateral (see `get_amount_idx`) must have been received first.
    pub fn execute_order_local(&mut self, order: Order) -> (r: Result<Vec<Transfer>, MatchingEngineError>)
        requires
            old(self).wf(),
        ensures
            r is Ok ==> final(self).wf(),
            local_effect(*old(self), *final(self), order, r),
    {
        match order {
            Order::Insert { owner, amount, nature, price } => {
                self.insert_and_uncross_market(owner, amount, nature, price)
            },
            Order::Cancel { owner, order_id } => {
                let rt = self.modify_order_check(order_id, ModifyAmount::All, owner);
                Self::single_refund(rt)
            },
            Order::Modify { owner, order_id, cancel_amount } => {
                let rt = self.modify_order_check(order_id, ModifyAmount::Partial(cancel_amount), owner);
                Self::single_refund(rt)
            },
        }
    }

    /// The list of payments holding one refund, or its error.
    fn single_refund(rt: Result<Transfer, MatchingEngineError>) -> (r: Result<Vec<Transfer>, MatchingEngineError>)
        ensures
            one_transfer(r, rt),
    {
        match rt {
            Ok(t) => {
                let mut v: Vec<Transfer> = Vec::new();
                v.push(t);
                assert(v@ =~= seq![t]);
                Ok(v)
            },
            Err(e) => Err(e),
        }
    }

    /// Authenticates the caller for the order's owner, then executes it. An order whose owner
    /// the caller may not act for is rejected and nothing changes.
    pub fn execute_operation(
        &mut self,
        authenticated_application_id: Option<u64>,
        authenticated_signer: Option<u64>,
        order: Order,
    ) -> (r: Result<Vec<Transfer>, MatchingEngineError>)
        requires
            old(self).wf(),
        ensures
            r is Ok ==> final(self).wf(),
            !authenticated(authenticated_application_id, authenticated_signer, order_owner(order))
                ==> r == Err::<Vec<Transfer>, MatchingEngineError>(MatchingEngineError::IncorrectAuthentication)
                    && *final(self) == *old(self),
            authenticated(authenticated_application_id, authenticated_signer, order_owner(order))
                ==> local_effect(*old(self), *final(self), order, r),
    {
        let owner = get_owner(&order);
        check_account_authentication(authenticated_application_id, authenticated_signer, owner)?;
        self.execute_order_local(order)
    }
}

/// 2 to the 64.
pub open spec fn two64() -> nat {
    0x1_0000_0000_0000_0000
}

/// The 33-byte record of an order entry: the amount in 16 big-endian bytes (high half, then
/// low half), the owner's kind (0 for a user, 1 for an application), the owner's identifier in
/// 8 bytes and the order id in 8 bytes.
pub open spec fn entry_record(e: OrderEntry) -> Seq<u8> {
    let kind: u8 = match e.owner {
        AccountOwner::User(_) => 0,
        AccountOwner::Application(_) => 1,
    };
    let id: u64 = match e.owner {
        AccountOwner::User(a) => a,
        AccountOwner::Application(a) => a,
    };
    be_bytes(e.amount.0 as nat / two64(), 8) + be_bytes(e.amount.0 as nat % two64(), 8) + seq![kind]
        + be_bytes(id as nat, 8) + be_bytes(e.order_id as nat, 8)
}

proof fn lemma_record_parts(e: OrderEntry)
    ensures
        entry_record(e).len() == 33,
        entry_record(e).subrange(0, 8) == be_bytes(e.amount.0 as nat / two64(), 8),
        entry_record(e).subrange(8, 16) == be_bytes(e.amount.0 as nat % two64(), 8),
        entry_record(e)[16] == (if e.owner is User { 0u8 } else { 1u8 }),
        entry_record(e).subrange(17, 25) == be_bytes((match e.owner {
            AccountOwner::User(a) => a,
            AccountOwner::Application(a) => a,
        }) as nat, 8),
        entry_record(e).subrange(25, 33) == be_bytes(e.order_id as nat, 8),
{
    let id: u64 = match e.owner {
        AccountOwner::User(a) => a,
        AccountOwner::Application(a) => a,
    };
    lemma_be_len(e.amount.0 as nat / two64(), 8);
    lemma_be_len(e.amount.0 as nat % two64(), 8);
    lemma_be_len(id as nat, 8);
    lemma_be_len(e.order_id as nat, 8);
    let r = entry_record(e);
    assert(r.subrange(0, 8) =~= be_bytes(e.amount.0 as nat / two64(), 8));
    assert(r.subrange(8, 16) =~= be_bytes(e.amount.0 as nat % two64(), 8));
    assert(r.subrange(17, 25) =~= be_bytes(id as nat, 8));
    assert(r.subrange(25, 33) =~= be_bytes(e.order_id as nat, 8));
}

/// Distinct order entries have distinct records.
pub proof fn lemma_entry_record_injective(e1: OrderEntry, e2: OrderEntry)
    requires
        entry_record(e1) == entry_record(e2),
    ensures
        e1 == e2,
{
    lemma_record_parts(e1);
    lemma_record_parts(e2);
    lemma_pow256_8();
    let a1 = e1.amount.0 as nat;
    let a2 = e2.amount.0 as nat;
    assert(a1 / two64() < two64() && a2 / two64() < two64()) by (nonlinear_arith)
        requires a1 < two64() * two64(), a2 < two64() * two64(), two64() > 0;
    lemma_be_roundtrip(a1 / two64(), 8);
    lemma_be_roundtrip(a2 / two64(), 8);
    lemma_be_roundtrip(a1 % two64(), 8);
    lemma_be_roundtrip(a2 % two64(), 8);
    assert(a1 == two64() * (a1 / two64()) + a1 % two64() && a2 == two64() * (a2 / two64()) + a2 % two64()) by (nonlinear_arith)
        requires two64() > 0;
    let id1: u64 = match e1.owner { AccountOwner::User(a) => a, AccountOwner::Application(a) => a };
    let id2: u64 = match e2.owner { AccountOwner::User(a) => a, AccountOwner::Application(a) => a };
    lemma_be_roundtrip(id1 as nat, 8);
    lemma_be_roundtrip(id2 as nat, 8);
    lemma_be_roundtrip(e1.order_id as nat, 8);
    lemma_be_roundtrip(e2.order_id as nat, 8);
    assert(e1.amount == e2.amount);
}

impl OrderEntry {
    /// The record of the entry; see `entry_record`.
    pub fn to_record(&self) -> (r: Vec<u8>)
        ensures
            r@ == entry_record(*self),
    {
        let (kind, id): (u8, u64) = match self.owner {
            AccountOwner::User(a) => (0, a),
            AccountOwner::Application(a) => (1, a),
        };
        let mut r = be_u64((self.amount.0 / 0x1_0000_0000_0000_0000) as u64);
        let lo = be_u64((self.amount.0 % 0x1_0000_0000_0000_0000) as u64);
        let idb = be_u64(id);
        let ob = be_u64(self.order_id);
        proof {
            lemma_be_len((self.amount.0 % 0x1_0000_0000_0000_0000) as nat, 8);
            lemma_be_len(id as nat, 8);
            lemma_be_len(self.order_id as nat, 8);
        }
        let mut i: usize = 0;
        let ghost start = r@;
        while i < 8
            invariant
                i <= 8,
                lo@.len() == 8,
                r@ == start + lo@.take(i as int),
            decreases 8 - i,
        {
            r.push(lo[i]);
            i = i + 1;
            assert(r@ =~= start + lo@.take(i as int));
        }
        proof { lemma_be_len((self.amount.0 % 0x1_0000_0000_0000_0000) as nat, 8); }
        r.push(kind);
        let ghost mid = r@;
        let mut j: usize = 0;
        while j < 16
            invariant
                j <= 16,
                idb@.len() == 8,
                ob@.len() == 8,
                r@ == mid + (idb@ + ob@).take(j as int),
            decreases 16 - j,
        {
            if j < 8 {
                r.push(idb[j]);
            } else {
                r.push(ob[j - 8]);
            }
            j = j + 1;
            assert(r@ =~= mid + (idb@ + ob@).take(j as int));
        }
        proof {
            lemma_be_len(id as nat, 8);
            lemma_be_len(self.order_id as nat, 8);
            assert(lo@.take(8) =~= lo@);
            assert((idb@ + ob@).take(16) =~= idb@ + ob@);
            assert(r@ =~= entry_record(*self));
        }
        r
    }

    /// The entry that a record holds, or `None` where it is not the record of an entry.
    pub fn from_record(record: &[u8]) -> (r: Option<OrderEntry>)
        ensures
            r matches Some(e) ==> entry_record(e) == record@,
            record@.len() == 33 && (record@[16] == 0 || record@[16] == 1) ==> r is Some,
            record@.len() != 33 ==> r is None,
    {
        if record.len() != 33 {
            return None;
        }
        let hi = from_be_u64(vstd::slice::slice_subrange(record, 0, 8));
        let lo = from_be_u64(vstd::slice::slice_subrange(record, 8, 16));
        let kind = record[16];
        let id = from_be_u64(vstd::slice::slice_subrange(record, 17, 25));
        let order_id = from_be_u64(vstd::slice::slice_subrange(record, 25, 33));
        let owner = if kind == 0 {
            AccountOwner::User(id)
        } else if kind == 1 {
            AccountOwner::Application(id)
        } else {
            return None;
        };
        proof { lemma_pow256_8(); }
        assert(hi * 0x1_0000_0000_0000_0000u128 + lo <= U128_MAX) by (nonlinear_arith)
            requires hi < 0x1_0000_0000_0000_0000, lo < 0x1_0000_0000_0000_0000;
        let amount = (hi as u128) * 0x1_0000_0000_0000_0000 + (lo as u128);
        let e = OrderEntry { amount: Amount(amount), owner, order_id };
        proof {
            lemma_record_parts(e);
            let a = amount as nat;
            assert(a / two64() == hi && a % two64() == lo) by (nonlinear_arith)
                requires a == hi * two64() + lo, lo < two64(), two64() > 0;
            lemma_be_value_roundtrip(record@.subrange(0, 8));
            lemma_be_value_roundtrip(record@.subrange(8, 16));
            lemma_be_value_roundtrip(record@.subrange(17, 25));
            lemma_be_value_roundtrip(record@.subrange(25, 33));
            assert(entry_record(e) =~= record@);
        }
        Some(e)
    }
}

/// Where an authenticated order goes.
#[derive(Debug, Clone, Copy, PartialEq, Eq, Structural)]
pub enum Dispatch {
    /// Executed on the book here.
    Local,
    /// Forwarded to the engine's home chain as a message; an insertion first moves its
    /// collateral there, to the same owner.
    Remote { collateral: Option<Transfer> },
}

/// Decides where an order goes: executed here on the engine's home chain, else forwarded
/// with the collateral of an insertion moved ahead of it.
pub fn dispatch_order(on_home_chain: bool, order: &Order) -> (r: Result<Dispatch, MatchingEngineError>)
    ensures
        on_home_chain ==> r == Ok::<Dispatch, MatchingEngineError>(Dispatch::Local),
        !on_home_chain && !(*order is Insert) ==> r == Ok::<Dispatch, MatchingEngineError>(Dispatch::Remote { collateral: None }),
        !on_home_chain ==> match *order {
            Order::Insert { owner, amount, nature, price } => match nature {
                OrderNature::Ask => r == Ok::<Dispatch, MatchingEngineError>(Dispatch::Remote { collateral: Some(Transfer { owner, amount, token_idx: 1 }) }),
                OrderNature::Bid => match product(price.price, amount) {
                    Some(c) => r == Ok::<Dispatch, MatchingEngineError>(Dispatch::Remote { collateral: Some(Transfer { owner, amount: c, token_idx: 0 }) }),
                    None => r == Err::<Dispatch, MatchingEngineError>(MatchingEngineError::Overflow),
                },
            },
            _ => true,
        },
{
    if on_home_chain {
        return Ok(Dispatch::Local);
    }
    match order {
        Order::Insert { owner, amount, nature, price } => {
            let (size, token) = get_amount_idx(*nature, *price, *amount)?;
            Ok(Dispatch::Remote { collateral: Some(Transfer { owner: *owner, amount: size, token_idx: token }) })
        },
        _ => Ok(Dispatch::Remote { collateral: None }),
    }
}

impl MatchingEngine {
    /// Executes an order that arrived as a message: only on the engine's home chain, and only
    /// for an owner the sender may act for.
    pub fn execute_message(&mut self, on_home_chain: bool, authenticated_signer: Option<u64>, order: Order)
        -> (r: Result<Vec<Transfer>, MatchingEngineError>)
        requires
            old(self).wf(),
        ensures
            r is Ok ==> final(self).wf(),
            !on_home_chain ==> r == Err::<Vec<Transfer>, MatchingEngineError>(MatchingEngineError::MatchingEngineChainOnly)
                && *final(self) == *old(self),
            on_home_chain && !authenticated(None, authenticated_signer, order_owner(order))
                ==> r == Err::<Vec<Transfer>, MatchingEngineError>(MatchingEngineError::IncorrectAuthentication)
                    && *final(self) == *old(self),
            on_home_chain && authenticated(None, authenticated_signer, order_owner(order))
                ==> local_effect(*old(self), *final(self), order, r),
    {
        if !on_home_chain {
            return Err(MatchingEngineError::MatchingEngineChainOnly);
        }
        self.execute_operation(None, authenticated_signer, order)
    }
}

} // verus!
