//! Decides when HTTP responses may be stored and reused by a cache,
//! following the rules of RFC 7234 for both shared and private caches,
//! including `Vary`, authenticated responses, heuristic freshness and
//! revalidation with strong and weak validators.
//!
//! The engine is purely computational: the caller performs all I/O and
//! supplies requests, responses and timestamps as plain values.

pub mod strutil;
pub mod headers;
pub mod cachecontrol;
pub mod roundtrip;
pub mod datetime;
pub mod policy;
pub mod laws;

pub use cachecontrol::CacheControl;
pub use cachecontrol::format_cache_control;
pub use headers::Headers;
pub use policy::AfterResponse;
pub use policy::BeforeRequest;
pub use policy::CacheOptions;
pub use policy::CachePolicy;
pub use policy::Request;
pub use policy::Response;
pub use strutil::join;
