//! Slipstream's desktop rules: which workspace each screen shows, the session record and its
//! tiling grammar, the share picker's list, screenshot names and folders, and the living
//! wallpaper's integer geometry.

pub mod calendar;
pub mod layout;
pub mod saver;
pub mod screen;
pub mod screencopy;
pub mod screenshot;
pub mod session;
pub mod share;
pub mod settings;
pub mod sheet;
pub mod text;
