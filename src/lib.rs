//! The protocol core of a small HTTP/1.1 server: reading requests from the
//! bytes a client sent, dispatching them to handlers by method, path and
//! version, and writing responses in wire format.

pub mod app;
pub mod cookie;
pub mod method;
pub mod path_and_query;
pub mod request;
pub mod response;
pub mod router;
pub mod start_line;
pub mod status;
pub mod text;
pub mod text_map;

pub use app::App;
pub use cookie::{Cookie, Timestamp};
pub use method::Method;
pub use request::{ParseError, Request};
pub use response::Response;
pub use router::Router;
pub use status::Status;
