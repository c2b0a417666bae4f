//! Verified core of Winlane: shortcut routing, window search ranking,
//! quicklink handling and the small text rules used by the settings pages.

pub mod shortcuts;
pub mod shortcut_laws;
pub mod text;
pub mod search;
pub mod search_laws;
pub mod quicklinks;
pub mod quicklink_laws;
pub mod inventory;
pub mod numbers;
pub mod environment;
pub mod logging;
pub mod paths;
pub mod platform;
pub mod file_search;
pub mod paste;
