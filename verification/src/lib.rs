//! A small library for running a manual image tournament: a pool of
//! candidate images is filtered by file extension, shuffled, and then
//! judged two at a time, the user either promoting the challenger to
//! winner or discarding it.

pub mod engine;
pub mod image_ref;
