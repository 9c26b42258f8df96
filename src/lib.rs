//! A nested client/server router: URL parsing, path matching, the navigation
//! state machine and the per-route loader cache.

pub mod params;
pub mod loader;
pub mod matching;
pub mod route;
pub mod router;
pub mod url;
