//! A small library for persistent directory markers: short flag names mapped
//! to directory paths, kept in a JSON file between invocations.
//!
//! The heart of the library is [`store::MarkerStore`], an in-memory map from
//! flag to path. [`codec`] turns a store into its JSON document and back, and
//! [`command`] carries out one user command against a store, producing the
//! exact output lines and exit code.

pub mod codec;
pub mod command;
pub mod store;
