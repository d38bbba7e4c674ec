//! A small in-memory document archive behind a length-prefixed binary
//! protocol: clients publish text documents, search for a word, and retrieve
//! a document by its id.
//!
//! The library holds the verified core: the wire codec for requests and
//! responses, the archive store with its full-text search, and the dispatch
//! of one decoded request against the store.  Sockets, threads and the
//! command line stay outside the library.

pub mod bytes_be;
pub mod message;
pub mod text;
pub mod archive;
pub mod handler;
