//! Compiles textual HTTP request definitions, plans their execution and keeps a
//! group-scoped catalog of the requests that were run.

pub mod config;
pub mod executor;
pub mod fields;
pub mod header;
pub mod request;
pub mod request_store;
pub mod session;
pub mod substitute;
pub mod text;

pub use config::Group;
pub use request::Request;
pub use request::Response;
pub use request_store::RequestStore;
