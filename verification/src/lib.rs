//! The logic of a small video editor: SRT subtitles, ASS scripts, the playlist
//! and its timeline, frame packing, previews and the export command line.
//! Strings are modelled as sequences of characters, frames as sequences of bytes.

pub mod text;
pub mod timecode;
pub mod subtitle;
pub mod ass;
pub mod frame;
pub mod preview;
pub mod editor;
pub mod export;
