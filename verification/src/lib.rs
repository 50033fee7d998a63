//! The rules of a desktop resource manager: categories that form a forest,
//! directories bound to them, scans of those directories into resources, and
//! the delivery of scan results in batches. Nothing here touches the file
//! system, the clock or a database: callers hand in what they read there.

pub mod cards;
pub mod category;
pub mod directory;
pub mod env_var;
pub mod error;
pub mod gpu;
pub mod manager;
pub mod models;
pub mod paths;
pub mod rename;
pub mod session;
pub mod shortcuts;
pub mod text;
pub mod tree;
pub mod walker;
pub mod wallpaper;
