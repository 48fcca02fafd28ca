//! Merging of transcript files: decoding, format detection, timestamp
//! extraction, cross-file offsetting and rendering, together with the small
//! pure parts of the audio-splitting and media-tool helpers.

pub mod audio;
pub mod clock;
pub mod commands;
pub mod decode;
pub mod detect;
pub mod ffmpeg;
pub mod markdown;
pub mod merger;
pub mod model;
pub mod order;
pub mod plain;
pub mod render;
pub mod roundtrip;
pub mod session;
pub mod stamp;
pub mod subtitle;
pub mod text;
pub mod timeline;
