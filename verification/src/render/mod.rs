//! Rendering helpers that do not depend on geometry: text escaping, the
//! theme presets and how skin parameters override them.
pub mod primitives;
pub mod theme;
