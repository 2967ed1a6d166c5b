//! The clip model and the editable timeline built from it.

pub mod clip;
pub mod laws;
pub mod lemmas;
pub mod model;
pub mod timeline;

pub use clip::Clip;
pub use timeline::Timeline;
