//! The application's settings, as read from its configuration files.

use vstd::prelude::*;

verus! {

/// The `log` crate's verbosity level, carried as it is.
#[verifier::external_type_specification]
#[verifier::external_body]
pub struct ExLevel(log::Level);

/// General settings.
pub struct General {
    pub log: Log,
    pub display_framerate: bool,
    pub data_root: String,
}

/// Logging settings.
pub struct Log {
    pub level: log::Level,
}

/// Renderer settings.
pub struct Renderer {
    pub vertex_shader: String,
    pub fragment_shader: String,
    pub css: String,
    pub max_tiles: usize,
    pub max_features: u64,
    pub tile_size: u32,
    pub msaa_samples: u32,
    pub selection_tags: Vec<String>,
    pub temperature: Temperature,
}

/// Shaders of the temperature overlay.
pub struct Temperature {
    pub vertex_shader: String,
    pub fragment_shader: String,
}

} // verus!
