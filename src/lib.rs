//! Re-emits a byte stream with a configurable subset of characters replaced by
//! escapes, passing through every character that the given fonts can render.
pub mod classify;
pub mod decode;
pub mod driver;
pub mod escape;
pub mod fonts;
pub mod unescape;
