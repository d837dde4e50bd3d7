//! Metis: a relation-first math engine built on a directed graph of nodes and
//! morphisms, with islands as knowledge domains.

pub mod types;
pub mod keys;
pub mod graph;
pub mod admission;
pub mod payload;
pub mod relation;
pub mod eval;
pub mod connection;
pub mod fnv;
pub mod jit;
pub mod lang;
pub mod conflict;
pub mod transform;
pub mod rules;
pub mod derivation;
pub mod verify;
pub mod zfc;
pub mod island;
pub mod lower;
