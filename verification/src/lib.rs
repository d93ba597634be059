//! A DNS message codec and the bookkeeping of a forwarding resolver.
//!
//! The codec turns a datagram into a [`message::Message`] and back. Its
//! pieces, from the leaves up: fixed-width fields ([`wire`]), the header
//! ([`header`]), record types and classes ([`rrtype`]), domain names with
//! compression pointers ([`name`]), questions ([`question`]), answers
//! ([`answer`]) and whole messages ([`message`]). What the two directions
//! have to do with each other is proved in [`roundtrip`] and
//! [`compression`].
//!
//! The resolver ([`server`]) answers by itself or forwards each question of
//! a client query to an upstream resolver and gathers the replies;
//! [`fanout`] proves what a whole exchange adds up to.

pub mod answer;
pub mod compression;
pub mod error;
pub mod fanout;
pub mod header;
pub mod message;
pub mod name;
pub mod question;
pub mod roundtrip;
pub mod rrtype;
pub mod server;
pub mod wire;
