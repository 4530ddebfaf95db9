//! A client for the Airtable REST API and a routine that mirrors a collection of
//! application objects into an Airtable table.
//!
//! The library holds the decisions of that client: which endpoint and method each
//! operation uses, how URLs are built, how responses are classified, how record
//! lists are paged and written in batches, and how objects are matched against
//! existing records when syncing. The network transport drives these functions.
pub mod airtable;
pub mod sync;
