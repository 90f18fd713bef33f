//! A fixed-capacity hash map from string keys to copyable values, with one
//! singly linked chain per bucket to resolve collisions.
pub mod chain;
pub mod hashing;
pub mod table;
