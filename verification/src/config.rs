//! Game configuration records.
use vstd::prelude::*;

verus! {

/// The plugin config file
pub struct PluginConfig {
    /// List of native plugins
    pub native: Vec<String>,
}

/// The game config file
pub struct GameConfig {
    /// Game title
    pub title: String,
    /// Game version
    pub version: String,
    /// Allowed game modes
    pub allowed_modes: Vec<String>,
    /// Game plugins
    pub plugins: Option<PluginConfig>,
}

} // verus!
