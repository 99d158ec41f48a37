//! A caching HTTP/1.0 forward proxy, as a verified library: message types,
//! the message reader and writer, the response cache, the origin client and
//! the error responder. The library computes on plain values; sockets and
//! files belong to whoever calls it.

pub mod cache;
pub mod handler;
pub mod laws;
pub mod message;
pub mod number;
pub mod origin;
pub mod reader;
pub mod text;
pub mod uri;
pub mod wire;
pub mod writer;

pub use message::{get_filetype, FileType, HttpError, Request, Response, Uri};
pub use reader::{print_requesthdrs, read_request, read_response};
pub use uri::parse_uri;
pub use writer::{client_error, request, response};
