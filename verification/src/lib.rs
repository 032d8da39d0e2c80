//! A DNS message library: parsing and writing DNS messages (header, questions,
//! resource records, compressed names) and the decisions of a small recursive
//! resolver, each function with a contract that states what it does.

pub mod sources;
pub mod reader;
pub mod data;
pub mod header;
pub mod net;
pub mod question;
pub mod resource;
pub mod message;
pub mod name;
pub mod validate;
pub mod wellformed;
pub mod cache;
pub mod server;
pub mod roundtrip;
pub mod properties;
pub mod describe;
pub mod detect;
pub mod basic_server;
