//! The settings of the earlier configuration layout, in which the log level
//! stands directly among the general settings.

use vstd::prelude::*;

verus! {

/// General settings.
pub struct General {
    pub log_level: log::Level,
    pub display_framerate: bool,
}

} // verus!
