//! Backend of a desktop application launcher: discovery of installed
//! applications, icon resolution with an in-memory cache, and fuzzy search.
//!
//! The library computes; it reads no disk and draws no icon. Its callers show
//! it what the file system and the registry hold, and what the shell drew.

pub mod app_discovery;
pub mod icon_extractor;
pub mod launcher;
pub mod paths;
pub mod search;
pub mod text;

pub use app_discovery::{scan_windows_apps, AppInfo};
pub use icon_extractor::{IconCache, IconResolver};
pub use search::search_apps;
