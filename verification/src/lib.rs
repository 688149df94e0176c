//! The verified core of Wayfinder, a desktop widget engine: the rules it keeps for
//! plugins, hosts, file associations, images, settings and layouts.

pub mod catalog;
pub mod format;
pub mod gfx;
pub mod icons;
pub mod images;
pub mod keyed;
pub mod module_file;
pub mod modules;
pub mod net;
pub mod param_file;
pub mod paths;
pub mod platform;
pub mod plugins;
pub mod settings;
pub mod strs;
pub mod text;
pub mod theme;
pub mod thumbs;
pub mod toml_doc;
pub mod widgets;
pub mod workspace;
