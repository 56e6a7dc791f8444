//! Taskbar lyrics: LRC parsing, timeline synchronisation and the decisions
//! around fetching and showing lyrics, with their contracts proved by Verus.
pub mod text;
pub mod timestamp;
pub mod lrc;
pub mod engine;
pub mod media;
pub mod sync;
pub mod json;
pub mod provider;
pub mod overlay;
pub mod tray;
mod tray_channel;
pub mod bilingual;
