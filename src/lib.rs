//! Request dispatch for an HTTP server: a routing trie keyed by method and
//! path segments (literal, `:name` and `*` segments), and a middleware
//! pipeline that wraps the matched handler, or the not-found responder, in the
//! order the middleware was added.

pub mod chain;
pub mod context;
pub mod laws;
pub mod message;
pub mod path;
pub mod router;
pub mod segment;
pub mod tree;

pub use chain::{Event, Flow, Handler, Middleware};
pub use context::{Context, Route};
pub use message::{render, Outcome, Request, Response};
pub use path::Path;
pub use router::Router;
pub use segment::trim_path;
pub use tree::{Node, RouteError, Tree};
