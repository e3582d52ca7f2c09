//! A configuration-driven HTTP request runner.
//!
//! Named APIs declare templated endpoints (method, URL, headers, auth, body).
//! One invocation selects an endpoint, layers substitution values from an
//! optional named context group and ad-hoc inputs into a resolution
//! environment, resolves every templated field, and produces a concrete
//! request plan together with a normalized view of the response.
//!
//! The crate holds the pure pipeline: template resolution, context layering,
//! request construction and response normalization. Configuration loading,
//! argument parsing and the HTTP transport live outside it and exchange plain
//! values with it.

pub mod config;
pub mod error;
pub mod executor;
pub mod parser;
pub mod resolver;
