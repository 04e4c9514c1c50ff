//! Geotagging and grouping of a photo collection: photos without a
//! recorded position take the nearest sample of a location timeline,
//! then the collection is clustered by place and by time, and place
//! clusters are named through reverse geocoding lookups.
pub mod dbscan;
pub mod enrich;
pub mod model;
pub mod photo;
pub mod queue;
pub mod timeline;

pub use model::{Model, Msg, ViewMsg, Win};
