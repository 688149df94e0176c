//! What a Widget declares about itself: its params, seeds and Modules.

pub mod meta;
