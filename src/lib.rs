//! A minimal entity-component store: entities own typed components, with
//! slot-allocated keys and bidirectional links between the two.

pub mod demo;
pub mod kinds;
pub mod laws;
pub mod slots;
pub mod store;

pub use demo::CompA;
pub use store::{CompKey, Component, EntityKey, ECS};
