//! Scheduling mathematics: the transaction dependency graph, Merkle trees
//! over transaction hashes, and the account-set conflict analyzer.
pub mod analyzer;
pub mod dag;
pub mod merkle;
