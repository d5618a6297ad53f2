//! A small HTTP server framework core: typed path templates compiled to
//! matchers, a route table with a resolution cache, HTTP request and response
//! models, and the per-connection and reactor state machines that decide what
//! the I/O driver does next.

pub mod text;
pub mod bytes;
pub mod matcher;
pub mod template;
pub mod method;
pub mod request;
pub mod response;
pub mod route;
pub mod table;
pub mod connection;
pub mod canteen;

pub use crate::canteen::{
    AcceptOutcome, Accepted, AfterRead, Canteen, Dispatch, Next, Progress, Readiness, Ready,
};
pub use crate::connection::{Connection, Interest, Phase, ReadOutcome, WriteOutcome, WriteStep};
pub use crate::method::Method;
pub use crate::request::{Parsed, Request};
pub use crate::response::Response;
pub use crate::route::{FileRead, Route};
pub use crate::table::{RouteDef, RouteTable};
pub use crate::template::{ParamType, RouteError};
