use linera_views_core::data_types::Amount;
use linera_views_core::matching_engine::{
    AccountOwner, MatchingEngine, MatchingEngineError, ModifyAmount, Order, OrderEntry, OrderNature, Price,
    Transfer, get_amount_idx, remove_zero_orders_from_level, dispatch_order, Dispatch,
};

const A: AccountOwner = AccountOwner::User(1);
const B: AccountOwner = AccountOwner::User(2);
const C: AccountOwner = AccountOwner::User(3);

fn t(owner: AccountOwner, amount: u128, token_idx: u32) -> Transfer {
    Transfer { owner, amount: Amount(amount), token_idx }
}

fn place(engine: &mut MatchingEngine, owner: AccountOwner, amount: u128, nature: OrderNature, price: u64) -> Vec<Transfer> {
    engine.insert_and_uncross_market(owner, Amount(amount), nature, Price { price }).unwrap()
}

fn queue(engine: &MatchingEngine, nature: OrderNature, price: u64) -> Vec<(AccountOwner, u128)> {
    let side = match nature {
        OrderNature::Bid => &engine.bids,
        OrderNature::Ask => &engine.asks,
    };
    side.levels
        .iter()
        .find(|(p, _)| *p == price)
        .map(|(_, q)| q.iter().map(|o| (o.owner, o.amount.0)).collect())
        .unwrap_or_default()
}

#[test]
fn cross_a_single_level() {
    let mut engine = MatchingEngine::new();
    assert!(place(&mut engine, A, 10, OrderNature::Ask, 5).is_empty());
    assert_eq!(queue(&engine, OrderNature::Ask, 5), vec![(A, 10)]);
    let transfers = place(&mut engine, B, 7, OrderNature::Bid, 5);
    assert_eq!(transfers, vec![t(B, 7, 1), t(A, 35, 0)]);
    assert_eq!(queue(&engine, OrderNature::Ask, 5), vec![(A, 3)]);
    assert!(engine.bids.levels.is_empty());
}

#[test]
fn price_improvement_to_resting_seller() {
    let mut engine = MatchingEngine::new();
    place(&mut engine, A, 4, OrderNature::Ask, 5);
    assert_eq!(get_amount_idx(OrderNature::Bid, Price { price: 8 }, Amount(4)), Ok((Amount(32), 0)));
    let transfers = place(&mut engine, B, 4, OrderNature::Bid, 8);
    assert_eq!(transfers, vec![t(B, 4, 1), t(A, 32, 0)]);
    assert!(engine.asks.levels.is_empty());
    assert!(engine.bids.levels.is_empty());
}

#[test]
fn price_improvement_to_resting_buyer() {
    let mut engine = MatchingEngine::new();
    place(&mut engine, A, 4, OrderNature::Bid, 8);
    let transfers = place(&mut engine, B, 4, OrderNature::Ask, 5);
    assert_eq!(transfers, vec![t(A, 4, 1), t(B, 20, 0), t(A, 12, 0)]);
    assert!(engine.asks.levels.is_empty());
    assert!(engine.bids.levels.is_empty());
}

#[test]
fn walk_multiple_asks() {
    let mut engine = MatchingEngine::new();
    place(&mut engine, C, 5, OrderNature::Ask, 7);
    place(&mut engine, A, 2, OrderNature::Ask, 5);
    assert_eq!(engine.asks.levels.iter().map(|(p, _)| *p).collect::<Vec<_>>(), vec![5, 7]);
    let transfers = place(&mut engine, B, 6, OrderNature::Bid, 7);
    assert_eq!(transfers, vec![t(B, 2, 1), t(A, 14, 0), t(B, 4, 1), t(C, 28, 0)]);
    assert_eq!(engine.asks.levels.len(), 1);
    assert_eq!(queue(&engine, OrderNature::Ask, 7), vec![(C, 1)]);
    assert!(engine.bids.levels.is_empty());
}

#[test]
fn partial_cancel() {
    let mut engine = MatchingEngine::new();
    place(&mut engine, A, 10, OrderNature::Bid, 3);
    let refund = engine
        .execute_order_local(Order::Modify { owner: A, order_id: 0, cancel_amount: Amount(4) })
        .unwrap();
    assert_eq!(refund, vec![t(A, 12, 0)]);
    assert_eq!(queue(&engine, OrderNature::Bid, 3), vec![(A, 6)]);
    assert_eq!(
        engine.modify_order_check(0, ModifyAmount::Partial(Amount(7)), A),
        Err(MatchingEngineError::TooLargeModifyOrder)
    );
    assert_eq!(engine.modify_order_check(0, ModifyAmount::All, B), Err(MatchingEngineError::WrongOwnerOfOrder));
    assert_eq!(engine.modify_order_check(9, ModifyAmount::All, A), Err(MatchingEngineError::OrderNotPresent));
    let refund = engine.execute_order_local(Order::Cancel { owner: A, order_id: 0 }).unwrap();
    assert_eq!(refund, vec![t(A, 18, 0)]);
    assert_eq!(engine.modify_order_check(0, ModifyAmount::All, A), Err(MatchingEngineError::OrderNotPresent));
}

#[test]
fn non_oldest_zero_is_retained() {
    let mut engine = MatchingEngine::new();
    place(&mut engine, A, 3, OrderNature::Ask, 5);
    place(&mut engine, B, 5, OrderNature::Ask, 5);
    let refund = engine.execute_order_local(Order::Modify { owner: A, order_id: 0, cancel_amount: Amount(3) }).unwrap();
    assert_eq!(refund, vec![t(A, 3, 1)]);
    assert_eq!(queue(&engine, OrderNature::Ask, 5), vec![(B, 5)]);

    let mut other = MatchingEngine::new();
    place(&mut other, A, 3, OrderNature::Ask, 5);
    place(&mut other, B, 5, OrderNature::Ask, 5);
    other.execute_order_local(Order::Cancel { owner: B, order_id: 1 }).unwrap();
    assert_eq!(queue(&other, OrderNature::Ask, 5), vec![(A, 3), (B, 0)]);

    let mut level = vec![
        OrderEntry { amount: Amount(0), owner: A, order_id: 0 },
        OrderEntry { amount: Amount(2), owner: B, order_id: 1 },
        OrderEntry { amount: Amount(0), owner: C, order_id: 2 },
    ];
    remove_zero_orders_from_level(&mut level);
    assert_eq!(level.len(), 2);
    assert_eq!(level[0].order_id, 1);
}

#[test]
fn authentication_rejection() {
    let mut engine = MatchingEngine::new();
    let order = Order::Insert { owner: AccountOwner::User(20), amount: Amount(5), nature: OrderNature::Bid, price: Price { price: 2 } };
    assert_eq!(engine.execute_operation(None, Some(10), order), Err(MatchingEngineError::IncorrectAuthentication));
    assert_eq!(engine.next_order_number, 0);
    assert!(engine.bids.levels.is_empty());
    let by_app = Order::Cancel { owner: AccountOwner::Application(4), order_id: 0 };
    assert_eq!(engine.execute_operation(Some(5), None, by_app), Err(MatchingEngineError::IncorrectAuthentication));
    assert_eq!(engine.execute_operation(Some(4), None, by_app), Err(MatchingEngineError::OrderNotPresent));
    assert_eq!(engine.execute_operation(None, Some(20), order), Ok(vec![]));
    assert_eq!(queue(&engine, OrderNature::Bid, 2), vec![(AccountOwner::User(20), 5)]);
}

#[test]
fn overflow_is_an_error() {
    let mut engine = MatchingEngine::new();
    place(&mut engine, A, u128::MAX, OrderNature::Ask, 1);
    let r = engine.insert_and_uncross_market(B, Amount(u128::MAX), OrderNature::Bid, Price { price: 2 });
    assert_eq!(r, Err(MatchingEngineError::Overflow));
}

#[test]
fn remote_orders_move_collateral_first() {
    let bid = Order::Insert { owner: A, amount: Amount(4), nature: OrderNature::Bid, price: Price { price: 8 } };
    let ask = Order::Insert { owner: B, amount: Amount(3), nature: OrderNature::Ask, price: Price { price: 8 } };
    let cancel = Order::Cancel { owner: A, order_id: 0 };
    assert_eq!(dispatch_order(true, &bid), Ok(Dispatch::Local));
    assert_eq!(dispatch_order(false, &bid), Ok(Dispatch::Remote { collateral: Some(t(A, 32, 0)) }));
    assert_eq!(dispatch_order(false, &ask), Ok(Dispatch::Remote { collateral: Some(t(B, 3, 1)) }));
    assert_eq!(dispatch_order(false, &cancel), Ok(Dispatch::Remote { collateral: None }));
    let mut engine = MatchingEngine::new();
    assert_eq!(engine.execute_message(false, Some(1), bid), Err(MatchingEngineError::MatchingEngineChainOnly));
    assert_eq!(engine.execute_message(true, Some(2), bid), Err(MatchingEngineError::IncorrectAuthentication));
    assert_eq!(engine.execute_message(true, Some(1), bid), Ok(vec![]));
    assert_eq!(queue(&engine, OrderNature::Bid, 8), vec![(A, 4)]);
}
