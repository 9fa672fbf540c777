//! A minimal user-resource service, verified with Verus.
//!
//! The library holds the whole request lifecycle that can be reasoned
//! about: parsing a raw request, routing it, decoding and encoding the
//! JSON user record, and the store operations modelled over an
//! in-memory table.  Socket and database I/O live outside the library.
pub mod codec;
pub mod handler;
pub mod laws;
pub mod num;
pub mod parser;
pub mod store;
pub mod user;
