//! A configurable HTTP mock server core: a declarative service description is
//! turned into an immutable route table, and each request path is resolved to a
//! canned response and the delay to apply before sending it.

pub mod text;
pub mod openapi;
pub mod store;
pub mod routes;
