//! The logic of qmenu, a dmenu/rofi-style launcher for Wayland compositors.

pub mod bitmap;
pub mod color;
pub mod config;
pub mod desktop;
pub mod icons;
pub mod layout;
pub mod menu;
pub mod paint;
pub mod path;
pub mod single;
pub mod text;
