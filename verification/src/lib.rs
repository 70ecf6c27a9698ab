//! A message-mirroring and quote-trivia library.
//!
//! The library keeps a durable mirror of the message history of remote chat
//! guilds and uses the mirrored corpus to build trivia rounds that ask who
//! authored a quote.  Its core is the channel synchronization engine
//! (single-flight scrape scheduling, backward backfill followed by forward
//! catch-up, idempotent upsert persistence) together with the quote sampling
//! and author ranking queries that feed the game.
//!
//! The remote chat platform and the relational storage engine are external
//! collaborators: the store is modelled here as verified in-memory state with
//! the same keys, conflict rules and referential-integrity constraints, and
//! the synchronization engine is verified against a snapshot of the remote
//! history handed in as plain data.  A front end drives the same engine page
//! by page against the live platform.

use vstd::prelude::*;

pub mod database;
pub mod entities;
pub mod error;
pub mod game;
pub mod ranking;
pub mod sampling;
pub mod scrapper;
pub mod sync;

verus! {

} // verus!
