//! A minimal HTTP/1.1 core: request parsing, routing, and response
//! encoding over in-memory byte streams, with optional gzip compression.

pub mod bytes;
pub mod headers;
pub mod reader;
pub mod request;
pub mod response;
pub mod routes;

pub use request::{Method, ParseError, Request};
pub use response::{Code, Content, Response};
