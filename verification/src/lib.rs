//! Session-scoped script evaluation: the wire response model, the cycle-safe
//! value-graph serializer and the session registry.

pub mod response;
pub mod walk;
pub mod graph;
pub mod json;
pub mod lua;
pub mod session;
