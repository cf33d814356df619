//! A timed visual-effect compositor.
//!
//! Given a rectangular buffer of RGBA pixels and an elapsed-time value, an
//! effect descriptor mutates the buffer in place: a global fade (dim toward
//! black or brighten from black) or a tinted outline highlight that pulls the
//! border pixels of an entity's silhouette toward a target color.
//!
//! Time is measured in thousandths of a time unit; every effect has a nominal
//! lifetime of two time units. The compositor is stateless: each call derives
//! the new channel values from the current buffer contents and the time it is
//! handed, so repeated calls compound rather than repeat.

pub mod entity;
pub mod pixel;
pub mod visual_effects;
