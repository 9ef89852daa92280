//! An import map: how bare module specifiers are rewritten to concrete
//! targets, either globally or inside a scope prefix.
//!
//! `ImportHashMap` is the loose shape a configuration decoder fills in;
//! `ImportMap` is the canonical, insertion-ordered shape that module
//! resolvers read. `ImportMap::from_hashmap` turns the first into the second.
pub mod entries;
pub mod ordered;
pub mod raw;
pub mod canonical;
