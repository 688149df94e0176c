//! What the app asks of Windows, as far as it is a decision rather than a call.

pub mod win32;
