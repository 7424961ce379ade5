//! A small iterative DNS resolver, verified: the wire codec for headers,
//! names, questions and resource records, and the referral-following
//! resolution logic.  Transport and entry point live outside the library
//! and drive it through `resolver::ResolverState`.

pub mod errors;
pub mod message;
pub mod resolver;
pub mod wire;
