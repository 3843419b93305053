//! An ergonomic, typed, transactional access layer over an embedded
//! ordered multimap storage engine (sanakirja).
//!
//! The store keeps numbered tables, each an ordered multimap from
//! `u64` wire keys to `u64` wire values: duplicate keys are allowed,
//! duplicate (key, value) pairs are not, and iteration is strictly
//! ascending in (key, value) order.  Application types reach the wire
//! form through the [`Encode`](dbpage::Encode) adapter.  The wire is
//! fixed-width on purpose: tables of byte sequences (the engine's
//! unsized pages) are outside this model and not offered here.
//!
//! Every operation is specified against a mathematical model: a
//! directory from table id to root page, and for each root a sorted
//! sequence of pairs (see [`model`]).

pub mod dbpage;
pub mod engine;
pub mod iter;
pub mod laws;
pub mod model;
pub mod txdb;
pub mod tx;

pub use dbpage::{DbPage, Encode};
pub use engine::{DbError, ReadTx, StoreOpts, Tx, TxRead, WriteTx, ROOT_SLOTS};
pub use iter::{Iter, KeyIter, RevIter};
pub use tx::TxArgs;
pub use txdb::TxDb;
