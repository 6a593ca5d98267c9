//! Relay core of a two-platform chat bridge: the shared message model, the
//! formatting translators, the identity mapping store and the decisions of
//! the event relay.

pub mod compose;
pub mod entities;
pub mod format;
pub mod media;
pub mod model;
pub mod naming;
pub mod reactions;
pub mod relay;
pub mod retry;
pub mod render;
pub mod store;
pub mod text;
