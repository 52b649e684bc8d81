//! An HTTP/1.1 server library: request heads, header fields, URIs, and the
//! decisions of its thread-per-connection and polling servers.
use vstd::prelude::*;

pub mod headers;
pub mod limited_reader;
pub mod poll;
pub mod request;
pub mod server;
pub mod text;
pub mod uri;

pub use headers::{normalize_header_field, normalize_header_value, Headers};
pub use limited_reader::LimitedReader;
pub use request::{parse_request_line, read_request, Method, Request, Response};
pub use server::{Handler, PollingServer, TPCServer};
pub use uri::{RelativeUri, Uri, UriRef};

verus! {

} // verus!
