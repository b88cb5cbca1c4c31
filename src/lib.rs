//! A small HTTP/1.x server transport: request parsing, body framing, a
//! keep-alive state machine, response serialisation and a file server with a
//! containment check, beside query-string, cookie and user-session helpers.
pub mod body;
pub mod connection;
pub mod cookie;
pub mod number;
pub mod query;
pub mod request;
pub mod response;
pub mod template;
pub mod text;
pub mod users;
