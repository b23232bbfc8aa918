use linera_views_core::collection_view::ByteCollectionView;
use linera_views_core::data_types::Amount;
use linera_views_core::matching_engine::{AccountOwner, MatchingEngine, OrderEntry, OrderNature, Price};
use linera_views_core::queue_view::QueueView;
use linera_views_core::custom_key::{CustomSerialize, PriceAsk, PriceBid};
use linera_views_core::register_view::RegisterView;
use linera_views_core::store::{Batch, MemoryStore};
use linera_views_core::typed_collection::{CollectionView, CustomCollectionView};
use linera_views_core::views::StoredView;

type Registers = ByteCollectionView<RegisterView>;

fn commit(view: &mut Registers, store: &mut MemoryStore) {
    let mut batch = Batch::new();
    view.flush(&mut batch);
    store.write_batch(batch);
}

#[test]
fn keys_are_lexicographic() {
    let store = MemoryStore::new();
    let mut view = Registers::load(vec![7], &store);
    view.load_entry_mut(vec![0, 2], &store);
    view.load_entry_mut(vec![0, 1], &store);
    view.load_entry_mut(vec![1], &store);
    view.load_entry_mut(vec![0], &store);
    assert_eq!(view.keys(&store), vec![vec![0], vec![0, 1], vec![0, 2], vec![1]]);
    assert!(view.contains_key(&[0, 1], &store));
    assert!(!view.contains_key(&[0, 3], &store));
}

#[test]
fn round_trip_through_the_store() {
    let mut store = MemoryStore::new();
    let mut view = Registers::load(vec![1, 2], &store);
    view.load_entry_mut(vec![3], &store).set(b"three".to_vec());
    view.load_entry_mut(vec![1], &store).set(b"one".to_vec());
    let keys = view.keys(&store);
    let hash = view.hash_mut(&store);
    commit(&mut view, &mut store);
    let mut reloaded = Registers::load(vec![1, 2], &store);
    assert_eq!(reloaded.keys(&store), keys);
    assert_eq!(reloaded.hash_mut(&store), hash);
    assert_eq!(reloaded.compute_hash(&store), hash);
    let entry = reloaded.try_load_entry(vec![3], &store).unwrap();
    assert_eq!(entry.get(), &b"three".to_vec());
    assert!(reloaded.try_load_entry(vec![4], &store).is_none());
}

#[test]
fn load_is_idempotent() {
    let mut store = MemoryStore::new();
    let mut view = Registers::load(vec![9], &store);
    view.load_entry_mut(vec![5], &store).set(vec![1]);
    view.hash_mut(&store);
    commit(&mut view, &mut store);
    let mut first = Registers::load(vec![9], &store);
    let mut batch = Batch::new();
    first.flush(&mut batch);
    assert_eq!(batch.operations.len(), 0);
    store.write_batch(batch);
    let mut second = Registers::load(vec![9], &store);
    assert_eq!(first.keys(&store), second.keys(&store));
    assert_eq!(first.hash_mut(&store), second.hash_mut(&store));
}

#[test]
fn removal_and_rollback() {
    let mut store = MemoryStore::new();
    let mut view = Registers::load(vec![], &store);
    view.load_entry_mut(vec![1], &store).set(vec![10]);
    view.load_entry_mut(vec![2], &store).set(vec![20]);
    commit(&mut view, &mut store);
    let stored_hash = view.hash_mut(&store);
    view.remove_entry(vec![1]);
    view.load_entry_mut(vec![3], &store);
    assert_eq!(view.keys(&store), vec![vec![2], vec![3]]);
    assert_ne!(view.hash_mut(&store), stored_hash);
    view.rollback();
    assert_eq!(view.keys(&store), vec![vec![1], vec![2]]);
    assert_eq!(view.hash_mut(&store), stored_hash);
    view.remove_entry(vec![1]);
    commit(&mut view, &mut store);
    let reloaded = Registers::load(vec![], &store);
    assert_eq!(reloaded.keys(&store), vec![vec![2]]);
}

#[test]
fn clear_masks_stored_entries() {
    let mut store = MemoryStore::new();
    let mut view = Registers::load(vec![4], &store);
    view.load_entry_mut(vec![1], &store).set(vec![1]);
    commit(&mut view, &mut store);
    view.clear();
    assert_eq!(view.keys(&store), Vec::<Vec<u8>>::new());
    assert!(!view.contains_key(&[1], &store));
    let empty_store = MemoryStore::new();
    let empty = Registers::load(vec![4], &empty_store);
    assert_eq!(view.hash_mut(&store), empty.compute_hash(&empty_store));
    assert_eq!(view.hash_mut(&store).len(), 32);
    let fresh = view.load_entry_mut(vec![1], &store);
    assert_eq!(fresh.get(), &Vec::<u8>::new());
    view.remove_entry(vec![1]);
    commit(&mut view, &mut store);
    let reloaded = Registers::load(vec![4], &store);
    assert_eq!(reloaded.keys(&store), Vec::<Vec<u8>>::new());
}

#[test]
fn reset_entry_to_default_empties_the_entry() {
    let store = MemoryStore::new();
    let mut view = Registers::load(vec![], &store);
    view.load_entry_mut(vec![0, 1], &store).set(b"Hello".to_vec());
    view.reset_entry_to_default(vec![0, 1], &store);
    assert_eq!(view.load_entry_mut(vec![0, 1], &store).get(), &Vec::<u8>::new());
    assert_eq!(view.load_entry_or_insert(vec![0, 1], &store).get(), &Vec::<u8>::new());
}

#[test]
fn hash_depends_on_state_not_history() {
    let store = MemoryStore::new();
    let mut a = Registers::load(vec![1], &store);
    a.load_entry_mut(vec![1], &store).set(vec![1]);
    a.load_entry_mut(vec![2], &store).set(vec![2]);
    let mut b = Registers::load(vec![1], &store);
    b.load_entry_mut(vec![2], &store).set(vec![9]);
    b.load_entry_mut(vec![3], &store);
    b.remove_entry(vec![3]);
    b.load_entry_mut(vec![1], &store).set(vec![1]);
    b.load_entry_mut(vec![2], &store).set(vec![2]);
    assert_eq!(a.hash_mut(&store), b.hash_mut(&store));
    b.load_entry_mut(vec![2], &store).set(vec![3]);
    assert_ne!(a.compute_hash(&store), b.compute_hash(&store));
    b.load_entry_mut(vec![2], &store).set(vec![2]);
    b.load_entry_mut(vec![4], &store);
    assert_ne!(a.compute_hash(&store), b.compute_hash(&store));
}

#[test]
fn disjoint_prefixes_are_isolated() {
    let mut store = MemoryStore::new();
    let mut a = Registers::load(vec![1], &store);
    let mut b = Registers::load(vec![2], &store);
    a.load_entry_mut(vec![7], &store).set(vec![1]);
    commit(&mut a, &mut store);
    assert_eq!(b.keys(&store), Vec::<Vec<u8>>::new());
    b.load_entry_mut(vec![8], &store).set(vec![2]);
    b.clear();
    commit(&mut b, &mut store);
    let a2 = Registers::load(vec![1], &store);
    assert_eq!(a2.keys(&store), vec![vec![7]]);
}

#[test]
fn nested_collections() {
    let mut store = MemoryStore::new();
    let mut outer: ByteCollectionView<Registers> = ByteCollectionView::load(vec![5], &store);
    outer.load_entry_mut(vec![1], &store).load_entry_mut(vec![2], &store).set(vec![3]);
    let mut batch = Batch::new();
    outer.flush(&mut batch);
    store.write_batch(batch);
    let mut reloaded: ByteCollectionView<Registers> = ByteCollectionView::load(vec![5], &store);
    assert_eq!(reloaded.keys(&store), vec![vec![1]]);
    let inner = reloaded.load_entry_mut(vec![1], &store);
    assert_eq!(inner.keys(&store), vec![vec![2]]);
    assert_eq!(inner.load_entry_mut(vec![2], &store).get(), &vec![3]);
}

#[test]
fn custom_indices_follow_prices() {
    let store = MemoryStore::new();
    let mut asks: CustomCollectionView<PriceAsk, RegisterView> = CustomCollectionView::load(vec![1], &store);
    for p in [28u64, 24, 23, 300, 256] {
        asks.load_entry_mut(&PriceAsk { price: p }, &store);
    }
    let prices: Vec<u64> = asks.indices(&store).unwrap().iter().map(|p| p.price).collect();
    assert_eq!(prices, vec![23, 24, 28, 256, 300]);
    let mut bids: CustomCollectionView<PriceBid, RegisterView> = CustomCollectionView::load(vec![2], &store);
    for p in [28u64, 24, 23, 300, 256] {
        bids.load_entry_mut(&PriceBid { price: p }, &store);
    }
    let prices: Vec<u64> = bids.indices(&store).unwrap().iter().map(|p| p.price).collect();
    assert_eq!(prices, vec![300, 256, 28, 24, 23]);
    assert!(bids.contains_key(&PriceBid { price: 24 }, &store));
    bids.remove_entry(&PriceBid { price: 24 });
    assert!(!bids.contains_key(&PriceBid { price: 24 }, &store));
}

#[test]
fn ordinary_indices_round_trip() {
    let store = MemoryStore::new();
    let mut view: CollectionView<u64, RegisterView> = CollectionView::load(vec![3], &store);
    view.load_entry_mut(&23, &store);
    view.load_entry_mut(&25, &store);
    let mut indices = view.indices(&store).unwrap();
    indices.sort();
    assert_eq!(indices, vec![23, 25]);
    assert!(view.try_load_entry(&24, &store).is_none());
}

#[test]
fn test_ordering_serialization() {
    let n = 20;
    let mut vec = Vec::new();
    let mut val = 1;
    for _ in 0..n {
        val *= 3;
        vec.push(val);
    }
    for i in 1..vec.len() {
        let val1 = vec[i - 1];
        let val2 = vec[i];
        assert!(val1 < val2);
        let price_ask1 = PriceAsk { price: val1 };
        let price_ask2 = PriceAsk { price: val2 };
        let price_bid1 = PriceBid { price: val1 };
        let price_bid2 = PriceBid { price: val2 };
        let ser_ask1 = price_ask1.to_custom_bytes();
        let ser_ask2 = price_ask2.to_custom_bytes();
        let ser_bid1 = price_bid1.to_custom_bytes();
        let ser_bid2 = price_bid2.to_custom_bytes();
        assert!(ser_ask1 < ser_ask2);
        assert!(ser_bid1 > ser_bid2);
        assert_eq!(PriceAsk::from_custom_bytes(&ser_ask1).unwrap().price, val1);
        assert_eq!(PriceAsk::from_custom_bytes(&ser_ask2).unwrap().price, val2);
        assert_eq!(PriceBid::from_custom_bytes(&ser_bid1).unwrap().price, val1);
        assert_eq!(PriceBid::from_custom_bytes(&ser_bid2).unwrap().price, val2);
    }
    assert_eq!(PriceAsk { price: 0x0102 }.to_custom_bytes(), vec![0, 0, 0, 0, 0, 0, 1, 2]);
    assert!(PriceAsk::from_custom_bytes(&[1, 2, 3]).is_err());
}

#[test]
fn for_each_key_while_stops_at_the_first_refusal() {
    let store = MemoryStore::new();
    let mut view = Registers::load(vec![], &store);
    view.load_entry_mut(vec![0, 2], &store);
    view.load_entry_mut(vec![0, 1], &store);
    view.load_entry_mut(vec![5], &store);
    let accepted = view.for_each_key_while(&store, |k: &Vec<u8>| k[0] == 0);
    assert_eq!(accepted, vec![vec![0, 1], vec![0, 2]]);
    let none = view.for_each_key_while(&store, |_k: &Vec<u8>| false);
    assert!(none.is_empty());
}

#[test]
fn store_applies_batches_in_order() {
    let mut store = MemoryStore::new();
    let mut batch = Batch::new();
    batch.put_key_value_bytes(vec![1, 1], vec![7]);
    batch.put_key_value_bytes(vec![1, 2], vec![8]);
    batch.put_key_value_bytes(vec![2], vec![9]);
    batch.delete_key(vec![1, 2]);
    batch.put_key_value_bytes(vec![1, 1], vec![6]);
    store.write_batch(batch);
    assert_eq!(store.read_value(&[1, 1]), Some(vec![6]));
    assert_eq!(store.read_value(&[1, 2]), None);
    assert_eq!(store.find_keys_by_prefix(&[1]), vec![vec![1]]);
    assert_eq!(store.find_key_values_by_prefix(&[]), vec![(vec![1, 1], vec![6]), (vec![2], vec![9])]);
    let mut batch = Batch::new();
    batch.delete_key_prefix(vec![1]);
    store.write_batch(batch);
    assert!(!store.contains_key(&[1, 1]));
    assert!(store.contains_key(&[2]));
}

#[test]
fn clone_unchecked_snapshots_pending_state() {
    let store = MemoryStore::new();
    let mut view = Registers::load(vec![6], &store);
    view.load_entry_mut(vec![1], &store).set(vec![11]);
    view.load_entry_mut(vec![2], &store).set(vec![22]);
    view.remove_entry(vec![2]);
    let mut copy = view.clone_unchecked();
    assert_eq!(copy.keys(&store), view.keys(&store));
    assert_eq!(copy.compute_hash(&store), view.compute_hash(&store));
    copy.load_entry_mut(vec![1], &store).set(vec![12]);
    assert_eq!(view.load_entry_mut(vec![1], &store).get(), &vec![11]);
    assert_ne!(copy.compute_hash(&store), view.compute_hash(&store));
}

#[test]
fn queue_keeps_insertion_order_through_the_store() {
    let mut store = MemoryStore::new();
    let mut queue = QueueView::load(vec![3, 3], &store);
    queue.push_back(vec![1]);
    queue.push_back(vec![2, 2]);
    queue.push_back(vec![3]);
    queue.delete_front();
    queue.set(1, vec![4]);
    assert_eq!(queue.count(), 2);
    assert_eq!(queue.elements_vec(), vec![vec![2, 2], vec![4]]);
    let hash = queue.hash(&store);
    let mut batch = Batch::new();
    queue.flush(&mut batch);
    store.write_batch(batch);
    let reloaded = QueueView::load(vec![3, 3], &store);
    assert_eq!(reloaded.elements_vec(), vec![vec![2, 2], vec![4]]);
    assert_eq!(reloaded.hash(&store), hash);
    let mut cleared = reloaded.clone_unchecked();
    cleared.clear();
    assert_eq!(cleared.count(), 0);
    cleared.rollback();
    assert_eq!(cleared.count(), 2);
}

#[test]
fn order_book_levels_in_collections_of_queues() {
    let mut engine = MatchingEngine::new();
    for (price, amount) in [(7u64, 5u128), (5, 2), (9, 1)] {
        engine
            .insert_and_uncross_market(AccountOwner::User(price), Amount(amount), OrderNature::Ask, Price { price })
            .unwrap();
    }
    let mut store = MemoryStore::new();
    let mut asks: CustomCollectionView<PriceAsk, QueueView> = CustomCollectionView::load(vec![8], &store);
    for (price, level) in engine.asks.levels.iter() {
        let queue = asks.load_entry_mut(&PriceAsk { price: *price }, &store);
        for entry in level.iter() {
            queue.push_back(entry.to_record());
        }
    }
    let mut batch = Batch::new();
    asks.flush(&mut batch);
    store.write_batch(batch);
    let mut reloaded: CustomCollectionView<PriceAsk, QueueView> = CustomCollectionView::load(vec![8], &store);
    let prices: Vec<u64> = reloaded.indices(&store).unwrap().iter().map(|p| p.price).collect();
    assert_eq!(prices, vec![5, 7, 9]);
    let best = reloaded.load_entry_mut(&PriceAsk { price: 5 }, &store);
    let entry = OrderEntry::from_record(best.get(0)).unwrap();
    assert_eq!(entry, OrderEntry { amount: Amount(2), owner: AccountOwner::User(5), order_id: 1 });
    assert_eq!(OrderEntry::from_record(&[0; 32]), None);
    let big = OrderEntry { amount: Amount(u128::MAX - 5), owner: AccountOwner::Application(u64::MAX), order_id: 77 };
    assert_eq!(OrderEntry::from_record(&big.to_record()), Some(big));
}

#[test]
fn for_each_index_while_visits_best_first() {
    let store = MemoryStore::new();
    let mut asks: CustomCollectionView<PriceAsk, RegisterView> = CustomCollectionView::load(vec![1], &store);
    asks.load_entry_mut(&PriceAsk { price: 28 }, &store);
    asks.load_entry_mut(&PriceAsk { price: 24 }, &store);
    asks.load_entry_mut(&PriceAsk { price: 23 }, &store);
    let crossing = asks.for_each_index_while(&store, |p: &PriceAsk| p.price <= 25).unwrap();
    assert_eq!(crossing.iter().map(|p| p.price).collect::<Vec<_>>(), vec![23, 24]);
    let copy = asks.clone_unchecked();
    assert_eq!(copy.indices(&store).unwrap().len(), 3);
    let mut plain: CollectionView<u64, RegisterView> = CollectionView::load(vec![2], &store);
    plain.load_entry_mut(&5, &store);
    assert_eq!(plain.for_each_index_while(&store, |_i: &u64| true).unwrap(), vec![5]);
}

#[test]
fn cleared_collection_keeps_its_digest_record() {
    let mut store = MemoryStore::new();
    let mut view = Registers::load(vec![5, 5], &store);
    view.hash_mut(&store);
    commit(&mut view, &mut store);
    let stored = Registers::load(vec![5, 5], &store).hash_mut(&store);
    view.load_entry_mut(vec![1], &store).set(vec![1]);
    view.clear();
    assert_eq!(view.hash_mut(&store), stored);
    let mut batch = Batch::new();
    view.flush(&mut batch);
    assert_eq!(batch.operations.len(), 2);
    store.write_batch(batch);
    let mut reloaded = Registers::load(vec![5, 5], &store);
    assert_eq!(reloaded.keys(&store), Vec::<Vec<u8>>::new());
    assert_eq!(reloaded.hash_mut(&store), stored);
    let mut batch = Batch::new();
    reloaded.flush(&mut batch);
    assert_eq!(batch.operations.len(), 0);
}

#[test]
fn cleared_collection_flush_deletes_only_the_prefix() {
    let mut store = MemoryStore::new();
    let mut view = Registers::load(vec![6], &store);
    view.load_entry_mut(vec![1], &store).set(vec![1]);
    commit(&mut view, &mut store);
    view.clear();
    let mut batch = Batch::new();
    view.flush(&mut batch);
    assert_eq!(batch.operations.len(), 1);
    store.write_batch(batch);
    assert!(store.find_keys_by_prefix(&[6]).is_empty());
}
