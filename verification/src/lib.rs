//! A verified model of selective scene persistence for a small
//! entity-component demo: a live graph of entities, a marker capability that
//! selects which entities a save captures, a versioned textual scene format
//! with a serializer and a strict parser, additive loading, and the keyboard
//! trigger mapping that drives it all.

pub mod codec;
pub mod input;
pub mod laws;
pub mod scene;
