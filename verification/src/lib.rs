//! A disposable HTTP endpoint for exercising code that makes outbound calls:
//! the address it binds, the URI under which it is reached, the answer it
//! gives, and what it reports when it stops.
//!
//! The library holds the decisions; binding the socket and serving
//! connections is left to the program around it.

pub mod digits;
pub mod address;
pub mod distinct;
pub mod uri;
pub mod exchange;
pub mod launcher;

pub use address::SocketAddress;
pub use exchange::{always_200_response, Request, Response};
pub use launcher::{spawn_blackhole_http_server, termination_report, Launch};
pub use uri::Uri;
