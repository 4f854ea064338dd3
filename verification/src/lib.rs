//! State-scoped entity cleanup: entities tagged with a cleanup marker are
//! despawned, together with all their descendants, when the application
//! leaves the state the marker was registered for.

pub mod app;
pub mod host;
pub mod laws;
pub mod model;
pub mod store;
