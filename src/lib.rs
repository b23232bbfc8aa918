//! Persistent, hashable collections of sub-views over a key-value store, the core data
//! types they are used with, and an order book keyed by order-preserving price encodings.

pub mod data_types;
pub mod text;
pub mod order;
pub mod store;
pub mod views;
pub mod register_view;
pub mod collection_view;
pub mod laws;
pub mod custom_key;
pub mod typed_collection;
pub mod matching_engine;
pub mod wit_types;
pub mod queue_view;
