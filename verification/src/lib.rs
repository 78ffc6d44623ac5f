//! A nested route engine: a chain of outlets, one per nesting level of the
//! matched route, kept in step with the current path by rebuilding only the
//! levels whose route changed.
//!
//! [`scope`] holds the lifetimes, [`matching`] what a matcher hands over,
//! [`outlet`] and [`nested`] the chain with its builder and its
//! reconciliation, [`router`] and [`flat_router`] the two routers, [`render`]
//! the rendering drivers and [`route_list`] the list of routes. [`laws`]
//! states what reconciliation guarantees. [`referrer`] and [`shell`] serve
//! the page around the router.

pub mod flat_router;
pub mod laws;
pub mod matching;
pub mod nested;
pub mod outlet;
pub mod params;
pub mod referrer;
pub mod render;
pub mod route_list;
pub mod router;
pub mod scope;
pub mod shell;
